//! Deadline scheduling, with no clock of its own.
//!
//! Every instant here is a monotonic millisecond count that the host measured itself. Nothing in
//! this file reads a clock, so a test drives the whole thing by feeding it numbers.

use vstd::arithmetic::power2::pow2;
use vstd::prelude::*;

use crate::sorted::{
    ascending, enumerates, in_order, lemma_in_order, text_before, Ordered, SortKey, SortedMap,
};
use crate::text::same;

verus! {

/// A moment in time, as the host's two clocks see it.
///
/// Monotonic time drives every deadline, because it only ever moves forward; the wall clock can
/// jump when a user resets it. The wall clock exists only to stamp a message that the server did
/// not stamp itself, so this module never reads `unix_ms` at all.
#[derive(Debug, Clone, Copy, PartialEq, Eq)]
pub struct Now {
    /// Milliseconds on a clock that never goes backward.
    pub monotonic_ms: u64,
    /// Milliseconds since the Unix epoch.
    pub unix_ms: u64,
}

/// How long a link may be quiet before a `PING` tests it.
pub const PING_KEEPALIVE_MS: u64 = 30_000;

/// No reply this long after a `PING` means that the link is dead.
pub const DEAD_LINK_MS: u64 = 10_000;

/// How long a typing indicator stands before it goes stale.
///
/// The `done` that would clear it can be lost, and a client that waits for one shows someone
/// typing forever, so the indicator expires on its own.
pub const TYPING_EXPIRY_MS: u64 = 6_000;

/// One named deadline that a host can arm and later collect once it falls due.
#[derive(Debug, Clone, PartialEq, Eq)]
pub enum Deadline {
    /// Time to send the next `PING` to prove that the link is still alive.
    PingKeepalive,
    /// No `PONG` came in time: the link is dead and should be torn down.
    DeadLink,
    /// Time to attempt the next reconnect, per [`ReconnectBackoff`].
    Reconnect,
    /// Someone composing a message, keyed by where and who.
    ///
    /// Two fields rather than one joined string: any separator could appear in a nick or a
    /// channel, and two different pairs would then share one deadline.
    Typing(String, String),
}

/// What a [`Deadline`] says.
pub enum DeadlineView {
    PingKeepalive,
    DeadLink,
    Reconnect,
    Typing(Seq<char>, Seq<char>),
}

impl View for Deadline {
    type V = DeadlineView;

    open spec fn view(&self) -> DeadlineView {
        match self {
            Deadline::PingKeepalive => DeadlineView::PingKeepalive,
            Deadline::DeadLink => DeadlineView::DeadLink,
            Deadline::Reconnect => DeadlineView::Reconnect,
            Deadline::Typing(place, who) => DeadlineView::Typing(place@, who@),
        }
    }
}

impl DeepView for Deadline {
    type V = DeadlineView;

    open spec fn deep_view(&self) -> DeadlineView {
        self@
    }
}

impl DeadlineView {
    /// Where this kind of deadline comes among the kinds.
    pub open spec fn kind(self) -> nat {
        match self {
            DeadlineView::PingKeepalive => 0,
            DeadlineView::DeadLink => 1,
            DeadlineView::Reconnect => 2,
            DeadlineView::Typing(_, _) => 3,
        }
    }
}

impl Ordered for DeadlineView {
    open spec fn precedes(self, other: Self) -> bool {
        match (self, other) {
            (DeadlineView::Typing(place, who), DeadlineView::Typing(elsewhere, another)) => {
                place.precedes(elsewhere) || (place == elsewhere && who.precedes(another))
            },
            _ => self.kind() < other.kind(),
        }
    }

    proof fn irreflexive(a: Self) {
        if let DeadlineView::Typing(place, who) = a {
            <Seq<char> as Ordered>::irreflexive(place);
            <Seq<char> as Ordered>::irreflexive(who);
        }
    }

    proof fn transitive(a: Self, b: Self, c: Self) {
        match (a, b, c) {
            (
                DeadlineView::Typing(p, x),
                DeadlineView::Typing(q, y),
                DeadlineView::Typing(r, z),
            ) => {
                if p.precedes(q) && q.precedes(r) {
                    <Seq<char> as Ordered>::transitive(p, q, r);
                }
                if x.precedes(y) && y.precedes(z) {
                    <Seq<char> as Ordered>::transitive(x, y, z);
                }
            },
            _ => {},
        }
    }

    proof fn connected(a: Self, b: Self) {
        match (a, b) {
            (DeadlineView::Typing(p, x), DeadlineView::Typing(q, y)) => {
                <Seq<char> as Ordered>::connected(p, q);
                <Seq<char> as Ordered>::connected(x, y);
            },
            _ => {},
        }
    }
}

impl Deadline {
    fn kind(&self) -> (r: u8)
        ensures
            r == self@.kind(),
    {
        match self {
            Deadline::PingKeepalive => 0,
            Deadline::DeadLink => 1,
            Deadline::Reconnect => 2,
            Deadline::Typing(_, _) => 3,
        }
    }
}

impl SortKey for Deadline {
    type Rank = DeadlineView;

    open spec fn rank(&self) -> DeadlineView {
        self@
    }

    fn before(&self, other: &Self) -> (r: bool) {
        assert(self.rank().precedes(other.rank()) == self@.precedes(other@));
        match (self, other) {
            (Deadline::Typing(place, who), Deadline::Typing(elsewhere, another)) => {
                text_before(place, elsewhere) || (same(place, elsewhere) && text_before(
                    who,
                    another,
                ))
            },
            _ => self.kind() < other.kind(),
        }
    }

    fn is(&self, other: &Self) -> (r: bool) {
        match (self, other) {
            (Deadline::Typing(place, who), Deadline::Typing(elsewhere, another)) => {
                same(place, elsewhere) && same(who, another)
            },
            _ => self.kind() == other.kind(),
        }
    }

    fn copied(&self) -> (r: Self) {
        match self {
            Deadline::PingKeepalive => Deadline::PingKeepalive,
            Deadline::DeadLink => Deadline::DeadLink,
            Deadline::Reconnect => Deadline::Reconnect,
            Deadline::Typing(place, who) => Deadline::Typing(place.clone(), who.clone()),
        }
    }
}

/// A key and the instant at which it falls due. The earlier comes first, and of two at one instant
/// the one whose key does.
pub struct Due<R> {
    pub at: u64,
    pub key: R,
}

impl<R: Ordered> Ordered for Due<R> {
    open spec fn precedes(self, other: Self) -> bool {
        self.at < other.at || (self.at == other.at && self.key.precedes(other.key))
    }

    proof fn irreflexive(a: Self) {
        R::irreflexive(a.key);
    }

    proof fn transitive(a: Self, b: Self, c: Self) {
        if a.key.precedes(b.key) && b.key.precedes(c.key) {
            R::transitive(a.key, b.key, c.key);
        }
    }

    proof fn connected(a: Self, b: Self) {
        R::connected(a.key, b.key);
    }
}

/// A value that falls due.
pub trait Expires: DeepView {
    /// The instant at which a value falls due.
    spec fn falls_due(v: <Self as DeepView>::V) -> u64;

    /// The instant at which this falls due.
    fn deadline(&self) -> (r: u64)
        ensures
            r == Self::falls_due(self.deep_view()),
    ;
}

impl Expires for u64 {
    open spec fn falls_due(v: u64) -> u64 {
        v
    }

    fn deadline(&self) -> (r: u64) {
        *self
    }
}

/// The keys that have fallen due by an instant, each with the instant at which it did.
pub open spec fn dues<R: Ordered, V: Expires>(
    m: Map<R, <V as DeepView>::V>,
    now: u64,
) -> Set<Due<R>> {
    Set::new(
        |d: Due<R>| m.contains_key(d.key) && V::falls_due(m[d.key]) == d.at && d.at <= now,
    )
}

/// What has fallen due by an instant, earliest first.
pub open spec fn due_in_order<R: Ordered, V: Expires>(
    m: Map<R, <V as DeepView>::V>,
    now: u64,
) -> Seq<(R, <V as DeepView>::V)> {
    in_order(dues::<R, V>(m, now)).map_values(|d: Due<R>| (d.key, m[d.key]))
}

/// What has not fallen due by an instant.
pub open spec fn not_due<R: Ordered, V: Expires>(
    m: Map<R, <V as DeepView>::V>,
    now: u64,
) -> Map<R, <V as DeepView>::V> {
    m.remove_keys(Set::new(|k: R| m.contains_key(k) && V::falls_due(m[k]) <= now))
}

/// The place of the key that fell due first, if any has.
fn earliest<K: SortKey, V: Expires>(map: &SortedMap<K, V>, now: u64) -> (r: Option<usize>)
    ensures
        match r {
            Some(i) => {
                let order = in_order(map@.dom());
                &&& i < map@.len()
                &&& V::falls_due(map@[order[i as int]]) <= now
                &&& forall|d: Due<K::Rank>| #[trigger]
                    dues::<K::Rank, V>(map@, now).contains(d) ==> d == (Due {
                        at: V::falls_due(map@[order[i as int]]),
                        key: order[i as int],
                    }) || (Due {
                        at: V::falls_due(map@[order[i as int]]),
                        key: order[i as int],
                    }).precedes(d)
            },
            None => forall|d: Due<K::Rank>| !dues::<K::Rank, V>(map@, now).contains(d),
        },
{
    let n: usize = map.len();
    let ghost order = in_order(map@.dom());
    let mut best: Option<(usize, u64)> = None;
    let mut i: usize = 0;
    while i < n
        invariant
            i <= n,
            n == map@.len(),
            n == order.len(),
            order == in_order(map@.dom()),
            enumerates(order, map@.dom()),
            match best {
                Some((b, at)) => {
                    &&& b < i
                    &&& at == V::falls_due(map@[order[b as int]])
                    &&& at <= now
                    &&& forall|j: int|
                        0 <= j < i && V::falls_due(map@[#[trigger] order[j]]) <= now ==> at
                            < V::falls_due(map@[order[j]]) || (at == V::falls_due(map@[order[j]])
                            && b <= j)
                },
                None => forall|j: int| 0 <= j < i ==> V::falls_due(map@[#[trigger] order[j]]) > now,
            },
        decreases n - i,
    {
        let at: u64 = map.value_at(i).deadline();
        if at <= now {
            match best {
                Some((_, sooner)) if sooner <= at => {},
                _ => {
                    best = Some((i, at));
                },
            }
        }
        i = i + 1;
    }
    match best {
        Some((b, at)) => {
            proof {
                let first = Due { at, key: order[b as int] };
                assert forall|d: Due<K::Rank>| #[trigger]
                    dues::<K::Rank, V>(map@, now).contains(d) implies d == first || first.precedes(
                    d,
                ) by {
                    let j = order.index_of(d.key);
                    assert(order[j] == d.key);
                    if j > b {
                        assert(order[b as int].precedes(order[j]));
                    }
                }
            }
            Some(b)
        },
        None => {
            proof {
                assert forall|d: Due<K::Rank>| !dues::<K::Rank, V>(map@, now).contains(d) by {
                    if dues::<K::Rank, V>(map@, now).contains(d) {
                        let j = order.index_of(d.key);
                        assert(order[j] == d.key);
                    }
                }
            }
            None
        },
    }
}

/// The entries of a list by the order of their keys.
pub open spec fn entries_of<K: SortKey, V: DeepView>(s: Seq<(K, V)>) -> Seq<
    (K::Rank, <V as DeepView>::V),
> {
    s.map_values(|e: (K, V)| (e.0.rank(), e.1.deep_view()))
}

/// Remove every entry whose deadline has passed, earliest first.
///
/// The deadlines are values rather than keys, so the order of the map says nothing about when an
/// entry falls due. Both the timers and the labelled commands need the same drain, and having it
/// once is what keeps "due" meaning one thing.
pub fn drain_due<K: SortKey, V: Expires>(map: &mut SortedMap<K, V>, now_ms: u64) -> (r: Vec<(K, V)>)
    ensures
        entries_of(r@) == due_in_order::<K::Rank, V>(old(map)@, now_ms),
        final(map)@ == not_due::<K::Rank, V>(old(map)@, now_ms),
{
    let ghost m0 = map@;
    let ghost all = dues::<K::Rank, V>(m0, now_ms);
    let ghost mut taken: Seq<Due<K::Rank>> = Seq::empty();
    let mut out: Vec<(K, V)> = Vec::new();
    let mut next: Option<usize> = earliest(map, now_ms);
    let n: usize = map.len();
    let mut left: usize = n;
    assert(entries_of(out@) =~= taken.map_values(|d: Due<K::Rank>| (d.key, m0[d.key])));
    while next.is_some()
        invariant
            all == dues::<K::Rank, V>(m0, now_ms),
            left == map@.len(),
            map@.dom().finite(),
            match next {
                Some(i) => {
                    let order = in_order(map@.dom());
                    &&& i < map@.len()
                    &&& V::falls_due(map@[order[i as int]]) <= now_ms
                    &&& forall|d: Due<K::Rank>| #[trigger]
                        dues::<K::Rank, V>(map@, now_ms).contains(d) ==> d == (Due {
                            at: V::falls_due(map@[order[i as int]]),
                            key: order[i as int],
                        }) || (Due {
                            at: V::falls_due(map@[order[i as int]]),
                            key: order[i as int],
                        }).precedes(d)
                },
                None => forall|d: Due<K::Rank>| !dues::<K::Rank, V>(map@, now_ms).contains(d),
            },
            forall|k: K::Rank| #[trigger]
                map@.contains_key(k) ==> m0.contains_key(k) && map@[k] == m0[k],
            entries_of(out@) == taken.map_values(|d: Due<K::Rank>| (d.key, m0[d.key])),
            ascending(taken),
            forall|j: int| 0 <= j < taken.len() ==> all.contains(#[trigger] taken[j]),
            forall|d: Due<K::Rank>| #[trigger]
                dues::<K::Rank, V>(map@, now_ms).contains(d) ==> forall|j: int|
                    0 <= j < taken.len() ==> (#[trigger] taken[j]).precedes(d),
            forall|d: Due<K::Rank>| #[trigger]
                all.contains(d) ==> taken.contains(d) || dues::<K::Rank, V>(map@, now_ms).contains(
                    d,
                ),
            forall|k: K::Rank| #[trigger]
                m0.contains_key(k) && V::falls_due(m0[k]) > now_ms ==> map@.contains_key(k),
        decreases left,
    {
        let ghost was = map@;
        let ghost had = out@;
        let ghost before = taken;
        let i: usize = next.unwrap();
        let (key, value) = map.take_at(i);
        let ghost d = Due { at: V::falls_due(value.deep_view()), key: key.rank() };
        proof {
            assert(dues::<K::Rank, V>(was, now_ms).contains(d));
            taken = taken.push(d);
        }
        out.push((key, value));
        left = map.len();
        next = earliest(map, now_ms);
        proof {
            assert(m0.contains_key(key.rank()) && m0[key.rank()] == value.deep_view());
            assert(entries_of(out@) =~= entries_of(had).push((key.rank(), value.deep_view())));
            assert(entries_of(out@) =~= taken.map_values(|d: Due<K::Rank>| (d.key, m0[d.key])));
            assert forall|e: Due<K::Rank>| #[trigger]
                dues::<K::Rank, V>(map@, now_ms).contains(e) implies forall|j: int|
                0 <= j < taken.len() ==> (#[trigger] taken[j]).precedes(e) by {
                assert(dues::<K::Rank, V>(was, now_ms).contains(e));
                assert forall|j: int| 0 <= j < taken.len() implies (#[trigger] taken[j]).precedes(
                    e,
                ) by {
                    if j < before.len() {
                        assert(taken[j] == before[j]);
                    }
                }
            }
            assert(ascending(taken)) by {
                assert forall|a: int, b: int| 0 <= a < b < taken.len() implies (
                #[trigger] taken[a]).precedes(#[trigger] taken[b]) by {
                    assert(taken[a] == before[a]);
                    if b < before.len() {
                        assert(taken[b] == before[b]);
                    }
                }
            }
            assert forall|e: Due<K::Rank>| #[trigger] all.contains(e) implies taken.contains(e)
                || dues::<K::Rank, V>(map@, now_ms).contains(e) by {
                if before.contains(e) {
                    let j = before.index_of(e);
                    assert(taken[j] == e);
                } else if e.key == d.key {
                    assert(taken[before.len() as int] == e);
                } else {
                    assert(dues::<K::Rank, V>(was, now_ms).contains(e));
                }
            }
        }
    }
    proof {
        assert forall|d: Due<K::Rank>| all.contains(d) <==> taken.contains(d) by {
            if taken.contains(d) {
                let j = taken.index_of(d);
                assert(taken[j] == d);
            }
        }
        lemma_in_order(taken, all);
        assert(map@ =~= not_due::<K::Rank, V>(m0, now_ms)) by {
            assert forall|k: K::Rank| map@.contains_key(k) implies V::falls_due(m0[k]) > now_ms by {
                let d = Due { at: V::falls_due(map@[k]), key: k };
                assert(map@[k] == m0[k]);
                assert(!dues::<K::Rank, V>(map@, now_ms).contains(d));
            }
        }
    }
    out
}

/// A set of named deadlines, armed and drained by monotonic time alone.
///
/// A host calls [`Timers::set`] with an instant computed from its own [`Now`], and later calls
/// [`Timers::expire`] with a fresh one to collect whatever fell due since.
pub struct Timers {
    pub(crate) deadlines: SortedMap<Deadline, u64>,
}

impl View for Timers {
    type V = Map<DeadlineView, u64>;

    closed spec fn view(&self) -> Map<DeadlineView, u64> {
        self.deadlines@
    }
}

impl Timers {
    /// However many deadlines there are, they are finitely many.
    pub(crate) proof fn lemma_finite(&self)
        requires
            self.deadlines.well_formed(),
        ensures
            self@.dom().finite(),
    {
        self.deadlines.lemma_finite();
    }
}

/// The deadlines that have fallen due, earliest first.
pub open spec fn expired(timers: Map<DeadlineView, u64>, now: u64) -> Seq<DeadlineView> {
    due_in_order::<DeadlineView, u64>(timers, now).map_values(|e: (DeadlineView, u64)| e.0)
}

/// The deadlines that have not fallen due.
pub open spec fn still_armed(timers: Map<DeadlineView, u64>, now: u64) -> Map<DeadlineView, u64> {
    not_due::<DeadlineView, u64>(timers, now)
}

/// True when the next deadline is at this instant, or when there is none.
pub open spec fn is_next(timers: Map<DeadlineView, u64>, next: Option<u64>) -> bool {
    match next {
        Some(at) => {
            &&& exists|k: DeadlineView| #[trigger] timers.contains_key(k) && timers[k] == at
            &&& forall|k: DeadlineView| #[trigger] timers.contains_key(k) ==> at <= timers[k]
        },
        None => timers == Map::<DeadlineView, u64>::empty(),
    }
}

impl Timers {
    /// A scheduler with nothing armed.
    pub fn new() -> (r: Self)
        ensures
            r@ == Map::<DeadlineView, u64>::empty(),
    {
        Timers { deadlines: SortedMap::new() }
    }

    /// Arm a deadline for this monotonic instant, replacing any previous one under the same key.
    pub fn set(&mut self, deadline: Deadline, at_monotonic_ms: u64)
        ensures
            final(self)@ == old(self)@.insert(deadline@, at_monotonic_ms),
    {
        self.deadlines.insert(deadline, at_monotonic_ms);
    }

    /// Disarm a deadline, if one was set.
    pub fn clear(&mut self, deadline: &Deadline)
        ensures
            final(self)@ == old(self)@.remove(deadline@),
    {
        self.deadlines.remove(deadline);
    }

    /// Every deadline that has fallen due by `now`, earliest first, removed from the schedule so
    /// that a second call at the same instant does not return them again.
    pub fn expire(&mut self, now: Now) -> (r: Vec<Deadline>)
        ensures
            r.deep_view() == expired(old(self)@, now.monotonic_ms),
            final(self)@ == still_armed(old(self)@, now.monotonic_ms),
    {
        let mut due = drain_due(&mut self.deadlines, now.monotonic_ms);
        let ghost all = expired(old(self)@, now.monotonic_ms);
        let ghost entries = due@;
        let n: usize = due.len();
        let mut out: Vec<Deadline> = Vec::new();
        assert(out.deep_view() =~= all.take(0));
        assert(entries.skip(0) =~= entries);
        while due.len() > 0
            invariant
                n == entries.len() == all.len(),
                due@ == entries.skip(n - due@.len()),
                due@.len() <= n,
                forall|i: int| 0 <= i < n ==> (#[trigger] entries[i]).0@ == all[i],
                out.deep_view() == all.take(n - due@.len()),
            decreases due@.len(),
        {
            let ghost i = n - due@.len();
            let (deadline, _) = due.remove(0);
            assert(deadline@ == all[i]);
            let ghost had = out.deep_view();
            out.push(deadline);
            assert(out.deep_view() =~= had.push(deadline@));
            assert(due@ =~= entries.skip(i + 1));
            assert(out.deep_view() =~= all.take(i + 1));
        }
        assert(all.take(n as int) =~= all);
        out
    }

    /// The earliest pending deadline, so that a host can sleep exactly that long.
    pub fn next(&self) -> (r: Option<u64>)
        ensures
            is_next(self@, r),
    {
        let n: usize = self.deadlines.len();
        let ghost order = in_order(self@.dom());
        let mut best: Option<u64> = None;
        let mut i: usize = 0;
        while i < n
            invariant
                i <= n,
                n == self@.len(),
                n == order.len(),
                order == in_order(self@.dom()),
                enumerates(order, self@.dom()),
                match best {
                    Some(at) => {
                        &&& exists|k: DeadlineView| #[trigger] self@.contains_key(k) && self@[k] == at
                        &&& forall|j: int| 0 <= j < i ==> at <= self@[#[trigger] order[j]]
                    },
                    None => i == 0,
                },
            decreases n - i,
        {
            let at: u64 = *self.deadlines.value_at(i);
            assert(self@.contains_key(order[i as int]));
            match best {
                Some(sooner) if sooner <= at => {},
                _ => {
                    best = Some(at);
                },
            }
            i = i + 1;
        }
        proof {
            assert forall|k: DeadlineView| #[trigger] self@.contains_key(k) implies best is Some
                && best->0 <= self@[k] by {
                let j = order.index_of(k);
                assert(order[j] == k);
            }
            if best is None {
                assert(self@ =~= Map::empty());
            }
        }
        best
    }
}

impl Default for Timers {
    fn default() -> (r: Self)
        ensures
            r@ == Map::<DeadlineView, u64>::empty(),
    {
        Self::new()
    }
}

/// A drain takes out what it returns: at the same instant, nothing more is due.
pub proof fn law_expires_once(timers: Map<DeadlineView, u64>, now: u64)
    ensures
        expired(still_armed(timers, now), now) == Seq::<DeadlineView>::empty(),
{
    let rest = still_armed(timers, now);
    let none = Seq::<Due<DeadlineView>>::empty();
    assert forall|d: Due<DeadlineView>|
        dues::<DeadlineView, u64>(rest, now).contains(d) <==> none.contains(d) by {}
    lemma_in_order(none, dues::<DeadlineView, u64>(rest, now));
    assert(expired(rest, now) =~= Seq::empty());
}

/// What falls due was armed, and falls due once.
pub proof fn lemma_expired_once(timers: Map<DeadlineView, u64>, now: u64)
    requires
        timers.dom().finite(),
    ensures
        expired(timers, now).no_duplicates(),
        forall|k: DeadlineView| #[trigger]
            expired(timers, now).contains(k) <==> timers.contains_key(k) && timers[k] <= now,
{
    lemma_dues_enumerated(timers, timers.dom(), now);
    let order = in_order(dues::<DeadlineView, u64>(timers, now));
    let keys = expired(timers, now);
    assert forall|i: int| 0 <= i < order.len() implies dues::<DeadlineView, u64>(
        timers,
        now,
    ).contains(#[trigger] order[i]) && keys[i] == order[i].key by {
        assert(order.contains(order[i]));
    }
    assert forall|i: int, j: int| 0 <= i < j < keys.len() implies keys[i] != keys[j] by {
        assert(order[i].precedes(order[j]));
        Due::irreflexive(order[i]);
        assert(order[i].key == keys[i] && order[j].key == keys[j]);
    }
    assert forall|k: DeadlineView| #[trigger]
        keys.contains(k) <==> timers.contains_key(k) && timers[k] <= now by {
        if timers.contains_key(k) {
            law_fires_on_time(timers, k, now);
        } else if keys.contains(k) {
            let i = keys.index_of(k);
            assert(order[i].key == k);
        }
    }
}

/// Where every deadline is still to come, none is due and all stay armed.
pub proof fn lemma_none_due(timers: Map<DeadlineView, u64>, now: u64)
    requires
        forall|k: DeadlineView| #[trigger] timers.contains_key(k) ==> now < timers[k],
    ensures
        expired(timers, now) == Seq::<DeadlineView>::empty(),
        still_armed(timers, now) == timers,
{
    let none = Seq::<Due<DeadlineView>>::empty();
    assert forall|d: Due<DeadlineView>|
        dues::<DeadlineView, u64>(timers, now).contains(d) <==> none.contains(d) by {}
    lemma_in_order(none, dues::<DeadlineView, u64>(timers, now));
    assert(expired(timers, now) =~= Seq::empty());
    assert(still_armed(timers, now) =~= timers);
}

/// A deadline fires exactly at its instant and not before.
pub proof fn law_fires_on_time(timers: Map<DeadlineView, u64>, k: DeadlineView, now: u64)
    requires
        timers.dom().finite(),
        timers.contains_key(k),
    ensures
        expired(timers, now).contains(k) <==> timers[k] <= now,
        still_armed(timers, now).contains_key(k) <==> now < timers[k],
{
    lemma_dues_enumerated(timers, timers.dom(), now);
    let order = in_order(dues::<DeadlineView, u64>(timers, now));
    if timers[k] <= now {
        let d = Due { at: timers[k], key: k };
        assert(dues::<DeadlineView, u64>(timers, now).contains(d));
        let i = order.index_of(d);
        assert(expired(timers, now)[i] == k);
    }
    if expired(timers, now).contains(k) {
        let i = expired(timers, now).index_of(k);
        assert(order.contains(order[i]));
        assert(dues::<DeadlineView, u64>(timers, now).contains(order[i]));
    }
}

/// Where a new element goes in an ascending sequence.
proof fn lemma_place<R: Ordered>(s: Seq<R>, d: R) -> (i: int)
    requires
        ascending(s),
        !s.contains(d),
    ensures
        0 <= i <= s.len(),
        forall|j: int| 0 <= j < i ==> (#[trigger] s[j]).precedes(d),
        forall|j: int| i <= j < s.len() ==> d.precedes(#[trigger] s[j]),
    decreases s.len(),
{
    if s.len() == 0 {
        0
    } else {
        let last = s.last();
        R::connected(last, d);
        assert(s.contains(last));
        if last.precedes(d) {
            assert forall|j: int| 0 <= j < s.len() implies (#[trigger] s[j]).precedes(d) by {
                if j < s.len() - 1 {
                    R::transitive(s[j], last, d);
                }
            }
            s.len() as int
        } else {
            let t = s.drop_last();
            assert(!t.contains(d)) by {
                if t.contains(d) {
                    let j = t.index_of(d);
                    assert(s[j] == d);
                }
            }
            let i = lemma_place(t, d);
            assert forall|j: int| 0 <= j < i implies (#[trigger] s[j]).precedes(d) by {
                assert(t[j] == s[j]);
            }
            assert forall|j: int| i <= j < s.len() implies d.precedes(#[trigger] s[j]) by {
                if j < t.len() {
                    assert(t[j] == s[j]);
                }
            }
            i
        }
    }
}

/// What falls due among finitely many keys has an order.
proof fn lemma_dues_enumerated(
    timers: Map<DeadlineView, u64>,
    keys: Set<DeadlineView>,
    now: u64,
)
    requires
        keys.finite(),
        timers.dom().subset_of(keys),
    ensures
        enumerates(
            in_order(dues::<DeadlineView, u64>(timers, now)),
            dues::<DeadlineView, u64>(timers, now),
        ),
    decreases keys.len(),
{
    let all = dues::<DeadlineView, u64>(timers, now);
    if timers.dom() =~= Set::empty() {
        assert(enumerates(Seq::<Due<DeadlineView>>::empty(), all));
    } else {
        let k = timers.dom().choose();
        let rest = timers.remove(k);
        lemma_dues_enumerated(rest, keys.remove(k), now);
        let some = dues::<DeadlineView, u64>(rest, now);
        let s = in_order(some);
        let d = Due { at: timers[k], key: k };
        if d.at <= now {
            assert(!some.contains(d));
            let i = lemma_place(s, d);
            let t = s.insert(i, d);
            assert(ascending(t)) by {
                assert forall|a: int, b: int| 0 <= a < b < t.len() implies (
                #[trigger] t[a]).precedes(#[trigger] t[b]) by {
                    if a != i {
                        assert(t[a] == s[if a < i { a } else { a - 1 }]);
                    }
                    if b != i {
                        assert(t[b] == s[if b < i { b } else { b - 1 }]);
                    }
                }
            }
            assert forall|e: Due<DeadlineView>| all.contains(e) <==> t.contains(e) by {
                if all.contains(e) && e != d {
                    assert(some.contains(e));
                    let j = s.index_of(e);
                    assert(t[if j < i { j } else { j + 1 }] == e);
                }
                assert(t[i] == d);
                if t.contains(e) && e != d {
                    let j = t.index_of(e);
                    assert(s[if j < i { j } else { j - 1 }] == e);
                    assert(some.contains(e));
                }
            }
            assert(enumerates(t, all));
        } else {
            assert(all =~= some);
        }
    }
}

/// Exponential reconnect backoff: `base * 2^attempt`, capped, giving up after a bounded number of
/// attempts.
///
/// Nothing here is random: the same sequence of calls always gives the same delays. A host that
/// wants to avoid a reconnect storm across many clients adds jitter on top of the delay.
#[derive(Debug, Clone, Copy, PartialEq, Eq)]
pub struct ReconnectBackoff {
    base_ms: u64,
    cap_ms: u64,
    max_attempts: u32,
    attempts: u32,
}

/// What a [`ReconnectBackoff`] holds.
pub struct BackoffView {
    pub base_ms: u64,
    pub cap_ms: u64,
    pub max_attempts: u32,
    pub attempts: u32,
}

impl View for ReconnectBackoff {
    type V = BackoffView;

    closed spec fn view(&self) -> BackoffView {
        BackoffView {
            base_ms: self.base_ms,
            cap_ms: self.cap_ms,
            max_attempts: self.max_attempts,
            attempts: self.attempts,
        }
    }
}

impl BackoffView {
    /// The delay before an attempt: the base doubled once for each attempt before it, up to the
    /// cap.
    pub open spec fn delay(self, attempt: u32) -> int {
        if self.base_ms * pow2(attempt as nat) < self.cap_ms {
            self.base_ms * pow2(attempt as nat)
        } else {
            self.cap_ms as int
        }
    }
}

/// The starting delay, before any doubling.
pub const DEFAULT_BASE_MS: u64 = 2_000;

/// The ceiling: no delay grows past this.
pub const DEFAULT_CAP_MS: u64 = 300_000;

/// How many attempts before giving up.
pub const DEFAULT_MAX_ATTEMPTS: u32 = 100;

/// Two to the power `n`, or the largest number where it does not fit.
fn doubled(n: u32) -> (r: u64)
    ensures
        n < 64 ==> r == pow2(n as nat),
        n >= 64 ==> r == u64::MAX && pow2(n as nat) > u64::MAX,
{
    if n < 64 {
        proof {
            vstd::bits::lemma_u64_pow2_no_overflow(n as nat);
            vstd::bits::lemma_u64_shl_is_mul(1, n as u64);
        }
        1u64 << (n as u64)
    } else {
        proof {
            vstd::arithmetic::power2::lemma2_to64();
            if n > 64 {
                vstd::arithmetic::power2::lemma_pow2_strictly_increases(64, n as nat);
            }
        }
        u64::MAX
    }
}

impl ReconnectBackoff {
    /// A backoff with its own base delay, cap and attempt limit.
    pub fn new(base_ms: u64, cap_ms: u64, max_attempts: u32) -> (r: Self)
        ensures
            r@ == (BackoffView { base_ms, cap_ms, max_attempts, attempts: 0 }),
    {
        ReconnectBackoff { base_ms, cap_ms, max_attempts, attempts: 0 }
    }

    /// The delay before the next attempt, or nothing once the attempts are exhausted.
    ///
    /// Each call counts as an attempt, so the first gives the base, the second twice that, and so
    /// on up to the cap, then nothing until [`Self::reset`].
    pub fn next_delay_ms(&mut self) -> (r: Option<u64>)
        ensures
            match r {
                Some(delay) => {
                    &&& old(self)@.attempts < old(self)@.max_attempts
                    &&& delay == old(self)@.delay(old(self)@.attempts)
                    &&& final(self)@ == (BackoffView {
                        attempts: (old(self)@.attempts + 1) as u32,
                        ..old(self)@
                    })
                },
                None => old(self)@.attempts >= old(self)@.max_attempts && *final(self) == *old(self),
            },
    {
        if self.attempts >= self.max_attempts {
            return None;
        }
        let factor: u64 = doubled(self.attempts);
        let delay: u64 = match self.base_ms.checked_mul(factor) {
            Some(delay) if delay < self.cap_ms => delay,
            _ => self.cap_ms,
        };
        proof {
            let b = self.base_ms as int;
            let p = pow2(self.attempts as nat) as int;
            if self.attempts >= 64 {
                if b == 0 {
                    assert(b * p == 0) by (nonlinear_arith)
                        requires
                            b == 0,
                    ;
                } else {
                    assert(b * p >= p) by (nonlinear_arith)
                        requires
                            b >= 1,
                            p >= 0,
                    ;
                    assert(b * u64::MAX >= u64::MAX) by (nonlinear_arith)
                        requires
                            b >= 1,
                    ;
                }
            }
        }
        self.attempts = self.attempts + 1;
        Some(delay)
    }

    /// Start the sequence over, for after a connection succeeds.
    pub fn reset(&mut self)
        ensures
            final(self)@ == (BackoffView { attempts: 0, ..old(self)@ }),
    {
        self.attempts = 0;
    }
}

impl Default for ReconnectBackoff {
    fn default() -> (r: Self)
        ensures
            r@ == (BackoffView {
                base_ms: DEFAULT_BASE_MS,
                cap_ms: DEFAULT_CAP_MS,
                max_attempts: DEFAULT_MAX_ATTEMPTS,
                attempts: 0,
            }),
    {
        Self::new(DEFAULT_BASE_MS, DEFAULT_CAP_MS, DEFAULT_MAX_ATTEMPTS)
    }
}

/// A delay never exceeds the cap, and the next one is never shorter.
pub proof fn law_backoff_grows(backoff: BackoffView, attempt: u32)
    requires
        attempt < u32::MAX,
    ensures
        0 <= backoff.delay(attempt) <= backoff.delay((attempt + 1) as u32) <= backoff.cap_ms,
{
    vstd::arithmetic::power2::lemma_pow2_unfold((attempt + 1) as nat);
    let b = backoff.base_ms as int;
    let p = pow2(attempt as nat) as int;
    assert(0 <= b * p <= b * (2 * p)) by (nonlinear_arith)
        requires
            b >= 0,
            p >= 0,
    ;
}

} // verus!

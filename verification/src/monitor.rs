//! Watching whether people are online.
//!
//! MONITOR asks the server to say when a nick comes or goes, instead of us polling with ISON. The
//! list has a limit that the server sets, and asking past it is refused for the whole request
//! rather than partially, so the limit has to be respected on our side.

use vstd::prelude::*;

use crate::sorted::{in_order, SortedSet};
use crate::text::{fields, join_between, joined, split_on};
use crate::wire::CaseFolded;

verus! {

/// Who we are watching, and whether each is online.
#[derive(Clone)]
pub struct Monitor {
    watching: SortedSet<CaseFolded>,
    online: SortedSet<CaseFolded>,
}

/// What a [`Monitor`] holds: the folded nicks we watch, and those that are online.
#[verifier::ext_equal]
pub struct MonitorView {
    pub watching: Set<Seq<char>>,
    pub online: Set<Seq<char>>,
}

impl View for Monitor {
    type V = MonitorView;

    closed spec fn view(&self) -> MonitorView {
        MonitorView { watching: self.watching@, online: self.online@ }
    }
}

impl MonitorView {
    /// Watching nobody.
    pub open spec fn nobody() -> MonitorView {
        MonitorView { watching: Set::empty(), online: Set::empty() }
    }

    /// Watching these too.
    pub open spec fn with(self, nicks: Set<Seq<char>>) -> MonitorView {
        MonitorView { watching: self.watching.union(nicks), ..self }
    }

    /// Not watching these.
    pub open spec fn without(self, nicks: Set<Seq<char>>) -> MonitorView {
        MonitorView {
            watching: self.watching.difference(nicks),
            online: self.online.difference(nicks),
        }
    }

    /// With someone online, who is watched then.
    pub open spec fn with_online(self, nick: Seq<char>) -> MonitorView {
        MonitorView { watching: self.watching.insert(nick), online: self.online.insert(nick) }
    }

    /// With someone offline.
    pub open spec fn with_offline(self, nick: Seq<char>) -> MonitorView {
        MonitorView { online: self.online.remove(nick), ..self }
    }
}

/// What these keys say.
pub open spec fn folds(nicks: Seq<CaseFolded>) -> Seq<Seq<char>> {
    nicks.map_values(|nick: CaseFolded| nick@)
}

impl Monitor {
    /// Watch nobody.
    pub fn new() -> (r: Self)
        ensures
            r@ == MonitorView::nobody(),
    {
        Monitor { watching: SortedSet::new(), online: SortedSet::new() }
    }

    /// Note that we asked to watch these.
    pub fn watch(&mut self, folded: Vec<CaseFolded>)
        ensures
            final(self)@ == old(self)@.with(folds(folded@).to_set()),
    {
        let ghost all = folds(folded@);
        let ghost start = self@;
        let mut i: usize = 0;
        assert(start.with(all.take(0).to_set()) =~= start);
        while i < folded.len()
            invariant
                i <= folded@.len() == all.len(),
                all == folds(folded@),
                self@ == start.with(all.take(i as int).to_set()),
            decreases folded@.len() - i,
        {
            proof {
                lemma_take_set(all, i as int);
            }
            self.watching.insert(folded[i].clone());
            i = i + 1;
            assert(self@ =~= start.with(all.take(i as int).to_set()));
        }
        assert(all.take(all.len() as int) =~= all);
    }

    /// Note that we asked to stop watching these.
    pub fn unwatch(&mut self, folded: &Vec<CaseFolded>)
        ensures
            final(self)@ == old(self)@.without(folds(folded@).to_set()),
    {
        let ghost all = folds(folded@);
        let ghost start = self@;
        let mut i: usize = 0;
        assert(start.without(all.take(0).to_set()) =~= start);
        while i < folded.len()
            invariant
                i <= folded@.len() == all.len(),
                all == folds(folded@),
                self@ == start.without(all.take(i as int).to_set()),
            decreases folded@.len() - i,
        {
            proof {
                lemma_take_set(all, i as int);
            }
            self.watching.remove(&folded[i]);
            self.online.remove(&folded[i]);
            i = i + 1;
            assert(self@ =~= start.without(all.take(i as int).to_set()));
        }
        assert(all.take(all.len() as int) =~= all);
    }

    /// Forget everyone, which is what `MONITOR C` does.
    pub fn clear(&mut self)
        ensures
            final(self)@ == MonitorView::nobody(),
    {
        self.watching.clear();
        self.online.clear();
    }

    /// Record that someone is online.
    pub fn mark_online(&mut self, folded: CaseFolded)
        ensures
            final(self)@ == old(self)@.with_online(folded@),
    {
        self.watching.insert(folded.clone());
        self.online.insert(folded);
    }

    /// Record that someone is offline.
    pub fn mark_offline(&mut self, folded: &CaseFolded)
        ensures
            final(self)@ == old(self)@.with_offline(folded@),
    {
        self.online.remove(folded);
    }

    /// True when we are watching this nick.
    pub fn is_watching(&self, folded: &CaseFolded) -> (r: bool)
        ensures
            r == self@.watching.contains(folded@),
    {
        self.watching.contains(folded)
    }

    /// True when this nick is online, as far as the server has told us.
    pub fn is_online(&self, folded: &CaseFolded) -> (r: bool)
        ensures
            r == self@.online.contains(folded@),
    {
        self.online.contains(folded)
    }

    /// Everyone we are watching, so that a reconnect can ask for them again.
    pub fn watched(&self) -> (r: Vec<&CaseFolded>)
        ensures
            r@.map_values(|nick: &CaseFolded| nick@) == in_order(self@.watching),
    {
        let n: usize = self.watching.len();
        let ghost all = in_order(self@.watching);
        let mut out: Vec<&CaseFolded> = Vec::new();
        let mut i: usize = 0;
        while i < n
            invariant
                i <= n == all.len(),
                n == self@.watching.len(),
                all == in_order(self@.watching),
                out@.len() == i,
                forall|j: int| 0 <= j < i ==> (#[trigger] out@[j])@ == all[j],
            decreases n - i,
        {
            out.push(self.watching.at(i));
            i = i + 1;
        }
        assert(out@.map_values(|nick: &CaseFolded| nick@) =~= all);
        out
    }

    /// How many we are watching.
    pub fn len(&self) -> (r: usize)
        ensures
            r == self@.watching.len(),
    {
        self.watching.len()
    }

    /// True when we are watching nobody.
    pub fn is_empty(&self) -> (r: bool)
        ensures
            r == (self@.watching == Set::<Seq<char>>::empty()),
    {
        self.watching.is_empty()
    }

    /// Nobody is online until the server says so, which is what a dropped link resets us to.
    pub fn forget_presence(&mut self)
        ensures
            final(self)@ == (MonitorView { online: Set::empty(), ..old(self)@ }),
    {
        self.online.clear();
    }
}

impl Default for Monitor {
    fn default() -> (r: Self)
        ensures
            r@ == MonitorView::nobody(),
    {
        Self::new()
    }
}

/// The first elements of a list, with one more.
proof fn lemma_take_set(all: Seq<Seq<char>>, i: int)
    requires
        0 <= i < all.len(),
    ensures
        all.take(i + 1).to_set() == all.take(i).to_set().insert(all[i]),
{
    let more = all.take(i + 1);
    let some = all.take(i);
    assert forall|s: Seq<char>| more.to_set().contains(s) <==> some.to_set().insert(
        all[i],
    ).contains(s) by {
        if more.contains(s) {
            let j = more.index_of(s);
            if j < i {
                assert(some[j] == s);
            }
        }
        if some.contains(s) {
            assert(more[some.index_of(s)] == s);
        }
        assert(more[i] == all[i]);
    }
    assert(more.to_set() =~= some.to_set().insert(all[i]));
}

/// How many targets one request may name: the server's limit, and at least one.
pub open spec fn per_request(limit: nat) -> nat {
    if limit == 0 {
        1
    } else {
        limit
    }
}

/// The targets in groups of this many, the last perhaps smaller.
pub open spec fn chunked(targets: Seq<Seq<char>>, size: nat) -> Seq<Seq<Seq<char>>>
    decreases targets.len(),
{
    if targets.len() == 0 || size == 0 {
        Seq::empty()
    } else if targets.len() <= size {
        seq![targets]
    } else {
        seq![targets.take(size as int)] + chunked(targets.skip(size as int), size)
    }
}

/// The parameters of the requests that together name these targets.
pub open spec fn requests(targets: Seq<Seq<char>>, limit: nat) -> Seq<Seq<char>> {
    chunked(targets, per_request(limit)).map_values(|chunk: Seq<Seq<char>>| joined(chunk, ","@))
}

/// The targets that a comma-separated parameter names.
pub open spec fn targets_in(list: Seq<char>) -> Seq<Seq<char>> {
    fields(list, ',').filter(|target: Seq<char>| target.len() > 0)
}

/// Split a list of targets into requests that each stay inside the server's limit.
///
/// A `MONITOR +` naming more than `limit` targets is refused whole, so a caller with a long list
/// has to send several requests rather than one and hope.
pub fn batched(targets: &Vec<String>, limit: usize) -> (r: Vec<String>)
    ensures
        r.deep_view() == requests(targets.deep_view(), limit as nat),
{
    let size: usize = if limit == 0 {
        1
    } else {
        limit
    };
    let ghost all = targets.deep_view();
    let ghost f = |chunk: Seq<Seq<char>>| joined(chunk, ","@);
    let mut out: Vec<String> = Vec::new();
    let mut from: usize = 0;
    assert(all.skip(0) =~= all);
    assert(out.deep_view() + chunked(all, size as nat).map_values(f) =~= requests(
        all,
        limit as nat,
    ));
    while from < targets.len()
        invariant
            from <= targets@.len() == all.len(),
            all == targets.deep_view(),
            size == per_request(limit as nat),
            f == (|chunk: Seq<Seq<char>>| joined(chunk, ","@)),
            out.deep_view() + chunked(all.skip(from as int), size as nat).map_values(f) == requests(
                all,
                limit as nat,
            ),
        decreases targets@.len() - from,
    {
        let ghost rest = all.skip(from as int);
        let ghost had = out.deep_view();
        let to: usize = if targets.len() - from <= size {
            targets.len()
        } else {
            from + size
        };
        let request = join_between(targets, from, to, ",");
        out.push(request);
        assert(out.deep_view() =~= had.push(request@));
        proof {
            let chunk = all.subrange(from as int, to as int);
            let more = all.skip(to as int);
            if to - from == rest.len() {
                assert(chunk =~= rest);
                assert(more =~= Seq::empty());
            } else {
                assert(chunk =~= rest.take(size as int));
                assert(more =~= rest.skip(size as int));
            }
            assert(chunked(rest, size as nat) =~= seq![chunk] + chunked(more, size as nat));
            assert(f(chunk) == request@);
            assert(had + chunked(rest, size as nat).map_values(f) =~= out.deep_view() + chunked(
                more,
                size as nat,
            ).map_values(f));
        }
        from = to;
    }
    assert(all.skip(from as int) =~= Seq::empty());
    assert(out.deep_view() =~= requests(all, limit as nat));
    out
}

/// Read the targets out of a comma-separated MONITOR parameter.
pub fn split_targets(list: &str) -> (r: Vec<String>)
    ensures
        r.deep_view() == targets_in(list@),
{
    let parts = split_on(list, ',');
    let ghost all = parts.deep_view();
    let ghost named = |target: Seq<char>| target.len() > 0;
    let mut out: Vec<String> = Vec::new();
    let mut i: usize = 0;
    proof {
        reveal(Seq::filter);
    }
    assert(out.deep_view() =~= all.take(0).filter(named));
    while i < parts.len()
        invariant
            i <= parts@.len() == all.len(),
            all == parts.deep_view(),
            named == (|target: Seq<char>| target.len() > 0),
            out.deep_view() == all.take(i as int).filter(named),
        decreases parts@.len() - i,
    {
        proof {
            reveal(Seq::filter);
        }
        assert(all.take(i + 1).drop_last() =~= all.take(i as int));
        if !parts[i].as_str().is_empty() {
            let ghost had = out.deep_view();
            out.push(parts[i].clone());
            assert(out.deep_view() =~= had.push(all[i as int]));
        }
        i = i + 1;
    }
    assert(all.take(all.len() as int) =~= all);
    out
}

/// Every group stays inside the limit and names someone, and together they name every target in
/// its place: group `i` begins with target `i * limit`.
pub proof fn law_requests_stay_inside_the_limit(targets: Seq<Seq<char>>, size: nat, i: int)
    requires
        size > 0,
        0 <= i < chunked(targets, size).len(),
    ensures
        0 < chunked(targets, size)[i].len() <= size,
        i * size + chunked(targets, size)[i].len() <= targets.len(),
        chunked(targets, size)[i] == targets.subrange(
            i * size,
            i * size + chunked(targets, size)[i].len(),
        ),
        i + 1 < chunked(targets, size).len() ==> chunked(targets, size)[i].len() == size,
        i + 1 == chunked(targets, size).len() ==> i * size + chunked(targets, size)[i].len()
            == targets.len(),
    decreases targets.len(),
{
    if targets.len() <= size {
        assert(0 * size == 0) by (nonlinear_arith);
        assert(targets =~= targets.subrange(0, targets.len() as int));
    } else if i == 0 {
        assert(0 * size == 0) by (nonlinear_arith);
        assert(targets.take(size as int) =~= targets.subrange(0, size as int));
        if chunked(targets, size).len() == 1 {
            assert(chunked(targets.skip(size as int), size).len() == 0);
        }
    } else {
        let rest = targets.skip(size as int);
        law_requests_stay_inside_the_limit(rest, size, i - 1);
        let group = chunked(rest, size)[i - 1];
        assert((i - 1) * size + size == i * size) by (nonlinear_arith);
        assert(group =~= targets.subrange(i * size, i * size + group.len()));
    }
}

/// Once we stop watching someone, we neither watch them nor show them as online.
pub proof fn law_unwatched_is_forgotten(
    monitor: MonitorView,
    nicks: Set<Seq<char>>,
    nick: Seq<char>,
)
    requires
        nicks.contains(nick),
    ensures
        !monitor.without(nicks).watching.contains(nick),
        !monitor.without(nicks).online.contains(nick),
{
}

} // verus!

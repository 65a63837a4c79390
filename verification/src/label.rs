//! Labeled-response correlation.
//!
//! `labeled-response` answers an outbound command with one tagged line, a bare `ACK`, or a `BATCH`
//! whose *opening* line carries the label; the lines of the batch and its closing line never
//! repeat it. The specification leaves timeouts out, so this is also where a label that never gets
//! answered is reclaimed rather than held forever.

use vstd::prelude::*;
use vstd::string::*;

use crate::sorted::{enumerates, in_order, lemma_in_order, SortedMap};
use crate::text::{decimal, decimal_of, strip_char, without_prefix};
use crate::timer::{drain_due, dues, entries_of, Due, Expires};
use crate::wire::{Line, LineView};

verus! {

/// A reply that has not come this long after its command is taken as never coming.
pub const DEFAULT_TIMEOUT_MS: u64 = 30_000;

/// One outstanding label, waiting for its reply or its deadline.
struct Pending<T> {
    deadline_ms: u64,
    batch_id: Option<String>,
    data: T,
}

/// What is known of an outstanding label: when it falls due, the batch that answers it once one
/// does, and what was registered with it. The line that closes the batch carries no label of its
/// own.
#[verifier::ext_equal]
pub struct PendingView<D> {
    pub deadline_ms: u64,
    pub batch_id: Option<Seq<char>>,
    pub data: D,
}

impl<T: DeepView> DeepView for Pending<T> {
    type V = PendingView<T::V>;

    closed spec fn deep_view(&self) -> PendingView<T::V> {
        PendingView {
            deadline_ms: self.deadline_ms,
            batch_id: self.batch_id.deep_view(),
            data: self.data.deep_view(),
        }
    }
}

impl<T: DeepView> Expires for Pending<T> {
    closed spec fn falls_due(v: PendingView<T::V>) -> u64 {
        v.deadline_ms
    }

    fn deadline(&self) -> (r: u64) {
        self.deadline_ms
    }
}

/// Correlates outbound commands that carry a `label` tag to the line that answers them.
///
/// The caller supplies whatever it needs to resolve the request that a label was attached to.
/// Nothing here inspects it; it is only ever handed back.
pub struct Labels<T: DeepView> {
    next_id: u64,
    pending: SortedMap<String, Pending<T>>,
    open_batches: SortedMap<String, String>,
}

/// What [`Labels`] hold: the number of the last label handed out, what is outstanding by its label,
/// and the label that each open batch answers. Only the opening `BATCH` line carries the label; the
/// closing line carries only the batch, so this is how the two are reunited.
#[verifier::ext_equal]
pub struct LabelsView<D> {
    pub next_id: u64,
    pub pending: Map<Seq<char>, PendingView<D>>,
    pub open_batches: Map<Seq<char>, Seq<char>>,
}

impl<T: DeepView> View for Labels<T> {
    type V = LabelsView<T::V>;

    closed spec fn view(&self) -> LabelsView<T::V> {
        LabelsView {
            next_id: self.next_id,
            pending: self.pending@,
            open_batches: self.open_batches@,
        }
    }
}

/// The label with this number.
pub open spec fn label_of(n: nat) -> Seq<char> {
    seq!['l'] + decimal(n)
}

/// A batch is no longer open, if there was one.
pub open spec fn without_batch(
    open: Map<Seq<char>, Seq<char>>,
    id: Option<Seq<char>>,
) -> Map<Seq<char>, Seq<char>> {
    match id {
        Some(id) => open.remove(id),
        None => open,
    }
}

/// The batches that answer these labels are no longer open.
pub open spec fn without_batches<D>(
    open: Map<Seq<char>, Seq<char>>,
    gone: Seq<(Seq<char>, PendingView<D>)>,
) -> Map<Seq<char>, Seq<char>>
    decreases gone.len(),
{
    if gone.len() == 0 {
        open
    } else {
        without_batch(without_batches(open, gone.drop_last()), gone.last().1.batch_id)
    }
}

impl<D> LabelsView<D> {
    /// Before any command was labelled.
    pub open spec fn none() -> LabelsView<D> {
        LabelsView { next_id: 0, pending: Map::empty(), open_batches: Map::empty() }
    }

    /// With a label outstanding.
    pub open spec fn with(self, label: Seq<char>, deadline_ms: u64, data: D) -> LabelsView<D> {
        LabelsView {
            pending: self.pending.insert(label, PendingView { deadline_ms, batch_id: None, data }),
            ..self
        }
    }

    /// After a line that closes a batch.
    pub open spec fn closing(self, id: Seq<char>) -> (LabelsView<D>, Option<D>) {
        if !self.open_batches.contains_key(id) {
            (self, None)
        } else {
            let label = self.open_batches[id];
            (
                LabelsView {
                    pending: self.pending.remove(label),
                    open_batches: self.open_batches.remove(id),
                    ..self
                },
                if self.pending.contains_key(label) {
                    Some(self.pending[label].data)
                } else {
                    None
                },
            )
        }
    }

    /// After a line that opens a batch under this label.
    pub open spec fn opening(self, id: Seq<char>, label: Option<Seq<char>>) -> LabelsView<D> {
        match label {
            Some(label) if self.pending.contains_key(label) => LabelsView {
                pending: self.pending.insert(
                    label,
                    PendingView { batch_id: Some(id), ..self.pending[label] },
                ),
                open_batches: self.open_batches.insert(id, label),
                ..self
            },
            _ => self,
        }
    }

    /// After a line that answers this label.
    pub open spec fn answering(self, label: Option<Seq<char>>) -> (LabelsView<D>, Option<D>) {
        match label {
            Some(label) if self.pending.contains_key(label) => (
                LabelsView {
                    pending: self.pending.remove(label),
                    open_batches: without_batch(self.open_batches, self.pending[label].batch_id),
                    ..self
                },
                Some(self.pending[label].data),
            ),
            _ => (self, None),
        }
    }

    /// After a line, and what it answers. The line that opens a batch only says that the batch is
    /// the answer; the answer is complete when the batch closes.
    pub open spec fn after(self, line: LineView) -> (LabelsView<D>, Option<D>) {
        if line.is("BATCH"@) {
            match line.param(0) {
                None => (self, None),
                Some(marker) => match (without_prefix(marker, '-'), without_prefix(marker, '+')) {
                    (Some(id), _) => self.closing(id),
                    (None, Some(id)) => (self.opening(id, line.tag("label"@)), None),
                    (None, None) => (self, None),
                },
            }
        } else {
            self.answering(line.tag("label"@))
        }
    }
}

/// The labels that have fallen due, each with the instant at which it did.
pub open spec fn overdue_labels<D>(pending: Map<Seq<char>, PendingView<D>>, now: u64) -> Set<
    Due<Seq<char>>,
> {
    Set::new(
        |d: Due<Seq<char>>|
            pending.contains_key(d.key) && pending[d.key].deadline_ms == d.at && d.at <= now,
    )
}

/// What has fallen due, earliest first.
pub open spec fn overdue<D>(pending: Map<Seq<char>, PendingView<D>>, now: u64) -> Seq<
    (Seq<char>, PendingView<D>),
> {
    in_order(overdue_labels(pending, now)).map_values(|d: Due<Seq<char>>| (d.key, pending[d.key]))
}

/// True when the first outstanding label falls due at this instant, or when none is outstanding.
pub open spec fn is_first_due<D>(pending: Map<Seq<char>, PendingView<D>>, next: Option<u64>) -> bool {
    match next {
        Some(at) => {
            &&& exists|k: Seq<char>| #[trigger]
                pending.contains_key(k) && pending[k].deadline_ms == at
            &&& forall|k: Seq<char>| #[trigger]
                pending.contains_key(k) ==> at <= pending[k].deadline_ms
        },
        None => pending == Map::<Seq<char>, PendingView<D>>::empty(),
    }
}

/// Labels that have not fallen due.
pub open spec fn in_time<D>(pending: Map<Seq<char>, PendingView<D>>, now: u64) -> Map<
    Seq<char>,
    PendingView<D>,
> {
    pending.remove_keys(
        Set::new(|k: Seq<char>| pending.contains_key(k) && pending[k].deadline_ms <= now),
    )
}

impl<T: DeepView> Labels<T> {
    /// A tracker with nothing outstanding.
    pub fn new() -> (r: Self)
        ensures
            r@ == LabelsView::<T::V>::none(),
    {
        Labels { next_id: 0, pending: SortedMap::new(), open_batches: SortedMap::new() }
    }

    /// True when there is a label that was not given out yet.
    pub fn has_more(&self) -> (r: bool)
        ensures
            r == (self@.next_id < u64::MAX),
    {
        self.next_id < u64::MAX
    }

    /// When the first outstanding label falls due.
    pub fn next(&self) -> (r: Option<u64>)
        ensures
            is_first_due(self@.pending, r),
    {
        let n: usize = self.pending.len();
        let ghost all = self@.pending;
        let ghost order = in_order(all.dom());
        let mut best: Option<u64> = None;
        let mut i: usize = 0;
        while i < n
            invariant
                i <= n,
                all == self.pending@,
                n == all.len(),
                n == order.len(),
                order == in_order(all.dom()),
                enumerates(order, all.dom()),
                match best {
                    Some(at) => {
                        &&& exists|k: Seq<char>| #[trigger]
                            all.contains_key(k) && all[k].deadline_ms == at
                        &&& forall|j: int|
                            0 <= j < i ==> at <= all[#[trigger] order[j]].deadline_ms
                    },
                    None => i == 0,
                },
            decreases n - i,
        {
            let at: u64 = self.pending.value_at(i).deadline_ms;
            assert(all.contains_key(order[i as int]));
            match best {
                Some(sooner) if sooner <= at => {},
                _ => {
                    best = Some(at);
                },
            }
            i = i + 1;
        }
        proof {
            assert forall|k: Seq<char>| #[trigger] all.contains_key(k) implies best is Some
                && best->0 <= all[k].deadline_ms by {
                let j = order.index_of(k);
                assert(order[j] == k);
            }
            if best is None {
                assert(all =~= Map::empty());
            }
        }
        best
    }

    /// A label that no other outstanding request is using.
    ///
    /// Sequential rather than random, so that the same calls always give the same labels.
    pub fn generate(&mut self) -> (r: String)
        requires
            old(self)@.next_id < u64::MAX,
        ensures
            final(self)@ == (LabelsView { next_id: (old(self)@.next_id + 1) as u64, ..old(self)@ }),
            r@ == label_of(final(self)@.next_id as nat),
    {
        self.next_id = self.next_id + 1;
        let mut label = String::new();
        label.push('l');
        label.append(&decimal_of(self.next_id));
        assert(label@ =~= label_of(self.next_id as nat));
        label
    }

    /// Start tracking a label that was just sent, due by this monotonic instant.
    pub fn register(&mut self, label: String, deadline_ms: u64, data: T)
        ensures
            final(self)@ == old(self)@.with(label@, deadline_ms, data.deep_view()),
    {
        self.pending.insert(label, Pending { deadline_ms, batch_id: None, data });
    }

    /// Apply an inbound line, returning what was registered under its label once the response to
    /// that label is complete.
    ///
    /// A single tagged line or a bare `ACK` resolves at once. A labelled line that opens a batch
    /// only arms the correlation: what was registered comes back when the batch closes, since
    /// resolving before that would hand the caller an empty result.
    pub fn resolve(&mut self, line: &Line) -> (r: Option<T>)
        ensures
            final(self)@ == old(self)@.after(line@).0,
            r.deep_view() == old(self)@.after(line@).1,
    {
        let ghost was = self@;
        if line.is("BATCH") {
            let marker = match line.param(0) {
                Some(marker) => marker,
                None => return None,
            };
            if let Some(id) = strip_char(marker, '-') {
                let label = match self.open_batches.remove(&id) {
                    Some(label) => label,
                    None => {
                        assert(self@.open_batches =~= was.open_batches);
                        return None;
                    },
                };
                return match self.pending.remove(&label) {
                    Some(pending) => Some(pending.data),
                    None => None,
                };
            }
            if let Some(id) = strip_char(marker, '+') {
                let label: String = match line.tag("label") {
                    Some(label) => label.to_owned(),
                    None => return None,
                };
                match self.pending.get_mut(&label) {
                    Some(pending) => {
                        pending.batch_id = Some(id.clone());
                    },
                    None => return None,
                }
                self.open_batches.insert(id, label);
            }
            return None;
        }
        let label: String = match line.tag("label") {
            Some(label) => label.to_owned(),
            None => return None,
        };
        match self.pending.remove(&label) {
            Some(pending) => {
                if let Some(id) = &pending.batch_id {
                    self.open_batches.remove(id);
                }
                Some(pending.data)
            },
            None => {
                assert(self@.pending =~= was.pending);
                None
            },
        }
    }

    /// Every label whose deadline has passed, earliest first, removed from tracking so that a
    /// server that never answers cannot leak an entry forever.
    pub fn expire(&mut self, now_monotonic_ms: u64) -> (r: Vec<T>)
        ensures
            r.deep_view() == overdue(old(self)@.pending, now_monotonic_ms).map_values(
                |e: (Seq<char>, PendingView<T::V>)| e.1.data,
            ),
            final(self)@ == (LabelsView {
                pending: in_time(old(self)@.pending, now_monotonic_ms),
                open_batches: without_batches(
                    old(self)@.open_batches,
                    overdue(old(self)@.pending, now_monotonic_ms),
                ),
                ..old(self)@
            }),
    {
        let ghost was = self@;
        let mut due = drain_due(&mut self.pending, now_monotonic_ms);
        let ghost late = overdue(was.pending, now_monotonic_ms);
        let ghost data = late.map_values(|e: (Seq<char>, PendingView<T::V>)| e.1.data);
        let ghost entries = due@;
        assert(self.pending@ =~= in_time(was.pending, now_monotonic_ms));
        assert(dues::<Seq<char>, Pending<T>>(was.pending, now_monotonic_ms) =~= overdue_labels(
            was.pending,
            now_monotonic_ms,
        ));
        assert(entries_of(entries) =~= late);
        let n: usize = due.len();
        let mut out: Vec<T> = Vec::new();
        assert(out.deep_view() =~= data.take(0));
        assert(entries.skip(0) =~= entries);
        assert(late.take(0) =~= Seq::empty());
        while due.len() > 0
            invariant
                n == entries.len() == late.len() == data.len(),
                due@ == entries.skip(n - due@.len()),
                due@.len() <= n,
                late == entries_of(entries),
                data == late.map_values(|e: (Seq<char>, PendingView<T::V>)| e.1.data),
                out.deep_view() == data.take(n - due@.len()),
                self@ == (LabelsView {
                    pending: in_time(was.pending, now_monotonic_ms),
                    open_batches: without_batches(was.open_batches, late.take(n - due@.len())),
                    ..was
                }),
            decreases due@.len(),
        {
            let ghost i = n - due@.len();
            let (_, pending) = due.remove(0);
            assert(pending.deep_view() == late[i].1);
            assert(late.take(i + 1).drop_last() =~= late.take(i));
            if let Some(id) = &pending.batch_id {
                self.open_batches.remove(id);
            }
            let ghost had = out.deep_view();
            let ghost datum = pending.data.deep_view();
            out.push(pending.data);
            assert(out.deep_view() =~= had.push(datum));
            assert(due@ =~= entries.skip(i + 1));
            assert(out.deep_view() =~= data.take(i + 1));
        }
        assert(data.take(n as int) =~= data);
        assert(late.take(n as int) =~= late);
        out
    }
}

impl<T: DeepView> Default for Labels<T> {
    fn default() -> (r: Self)
        ensures
            r@ == LabelsView::<T::V>::none(),
    {
        Self::new()
    }
}

/// Numbers that are spelled alike are the same number.
pub(crate) proof fn lemma_decimal_distinct(a: nat, b: nat)
    requires
        decimal(a) == decimal(b),
    ensures
        a == b,
    decreases a,
{
    assert(decimal(a).last() == decimal(b).last());
    lemma_decimal_shape(a);
    lemma_decimal_shape(b);
    if a >= 10 {
        assert(decimal(a).drop_last() =~= decimal(a / 10));
        assert(decimal(b).drop_last() =~= decimal(b / 10));
        lemma_decimal_distinct(a / 10, b / 10);
    }
}

/// A number is spelled as the number without its last digit, and that digit.
proof fn lemma_decimal_shape(a: nat)
    ensures
        decimal(a).len() >= 1,
        decimal(a).len() == 1 <==> a < 10,
        decimal(a).last() == crate::text::digit_char((a % 10) as int),
{
    if a >= 10 {
        lemma_decimal_nonempty(a / 10);
    }
}

proof fn lemma_decimal_nonempty(a: nat)
    ensures
        decimal(a).len() >= 1,
    decreases a,
{
    if a >= 10 {
        lemma_decimal_nonempty(a / 10);
    }
}

/// Labels that were handed out one after the other are different labels.
pub proof fn law_labels_are_distinct(a: nat, b: nat)
    requires
        a != b,
    ensures
        label_of(a) != label_of(b),
{
    if label_of(a) == label_of(b) {
        assert(label_of(a).skip(1) =~= decimal(a));
        assert(label_of(b).skip(1) =~= decimal(b));
        lemma_decimal_distinct(a, b);
    }
}

/// A line that carries a label gives back what was registered with it, and the label is no longer
/// outstanding.
pub proof fn law_label_round_trip<D>(
    labels: LabelsView<D>,
    label: Seq<char>,
    deadline_ms: u64,
    data: D,
    line: LineView,
)
    requires
        !line.is("BATCH"@),
        line.tag("label"@) == Some(label),
    ensures
        labels.with(label, deadline_ms, data).after(line).1 == Some(data),
        !labels.with(label, deadline_ms, data).after(line).0.pending.contains_key(label),
{
}

/// An answer that comes as a batch is complete when the batch closes, not when it opens: what was
/// registered comes back then, whatever lines without a label came between.
pub proof fn law_batch_completes_on_close<D>(
    labels: LabelsView<D>,
    label: Seq<char>,
    deadline_ms: u64,
    data: D,
    open: LineView,
    close: LineView,
    id: Seq<char>,
)
    requires
        open.is("BATCH"@),
        open.tag("label"@) == Some(label),
        open.param(0) == Some(seq!['+'] + id),
        close.is("BATCH"@),
        close.param(0) == Some(seq!['-'] + id),
    ensures
        ({
            let sent = labels.with(label, deadline_ms, data);
            &&& sent.after(open).1 is None
            &&& sent.after(open).0.after(close).1 == Some(data)
        }),
{
    assert((seq!['+'] + id).skip(1) =~= id);
    assert((seq!['-'] + id).skip(1) =~= id);
}

/// Where no label is overdue, none is reclaimed.
pub proof fn lemma_none_overdue<D>(labels: LabelsView<D>, now: u64)
    requires
        forall|label: Seq<char>| #[trigger]
            labels.pending.contains_key(label) ==> now < labels.pending[label].deadline_ms,
    ensures
        overdue(labels.pending, now) == Seq::<(Seq<char>, PendingView<D>)>::empty(),
        in_time(labels.pending, now) == labels.pending,
        without_batches(labels.open_batches, overdue(labels.pending, now)) == labels.open_batches,
{
    let none = Seq::<Due<Seq<char>>>::empty();
    assert forall|d: Due<Seq<char>>|
        overdue_labels(labels.pending, now).contains(d) <==> none.contains(d) by {}
    lemma_in_order(none, overdue_labels(labels.pending, now));
    assert(overdue(labels.pending, now) =~= Seq::empty());
    assert(in_time(labels.pending, now) =~= labels.pending);
    assert(without_batches(labels.open_batches, overdue(labels.pending, now))
        =~= labels.open_batches);
}

/// Every label that is overdue is reclaimed, and no other: the one is no longer outstanding, so a
/// late answer resolves nothing.
pub proof fn law_expired_labels_are_gone<D>(
    labels: LabelsView<D>,
    label: Seq<char>,
    now: u64,
    line: LineView,
)
    requires
        labels.pending.contains_key(label),
        !line.is("BATCH"@),
        line.tag("label"@) == Some(label),
    ensures
        in_time(labels.pending, now).contains_key(label) <==> now
            < labels.pending[label].deadline_ms,
        labels.pending[label].deadline_ms <= now ==> (LabelsView {
            pending: in_time(labels.pending, now),
            ..labels
        }).after(line).1 is None,
{
}

} // verus!

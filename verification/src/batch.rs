//! `BATCH` framing: nesting, interleaving, and buffering per batch.
//!
//! This module only ever sees `BATCH` lines and the lines that carry a `batch` tag, so a batch is
//! assembled and torn down the same way whether it wraps `chathistory`, a netsplit, or a type that
//! nobody has heard of.

use vstd::prelude::*;

use crate::sorted::SortedMap;
use crate::text::{copy_strings, same, strip_char, without_prefix};
use crate::wire::{owned, Line, LineView};

verus! {

/// How many lines a single batch buffers before it is marked overflowed.
///
/// A server that opens a batch and never closes it would otherwise let this grow without bound;
/// this is the ceiling on the damage of any one batch.
pub const DEFAULT_MAX_BUFFERED: usize = 1024;

/// How many batches may be open at once.
///
/// The bound of a batch says nothing about how many batches there are, so a server that opens
/// references and never closes them would otherwise let this grow without bound too.
pub const DEFAULT_MAX_OPEN: usize = 64;

/// One batch that finished, with everything that it collected while it was open.
#[derive(Debug, PartialEq, Eq)]
pub struct ClosedBatch {
    /// The batch type from its `BATCH +ref type` line, kept even when nobody recognises it.
    pub kind: String,
    /// The parameters that followed the type.
    pub params: Vec<String>,
    /// The reference of the batch that held this one, when it was nested.
    pub parent: Option<String>,
    /// The lines routed into this batch, in the order they came, each `msgid` once.
    pub messages: Vec<Line>,
    /// True once the buffer was full, so that `messages` is only the beginning of what was sent.
    pub overflowed: bool,
}

/// What a batch has collected.
#[verifier::ext_equal]
pub struct BatchView {
    pub kind: Seq<char>,
    pub params: Seq<Seq<char>>,
    pub parent: Option<Seq<char>>,
    pub messages: Seq<LineView>,
    pub overflowed: bool,
}

impl View for ClosedBatch {
    type V = BatchView;

    open spec fn view(&self) -> BatchView {
        BatchView {
            kind: self.kind@,
            params: self.params.deep_view(),
            parent: self.parent.deep_view(),
            messages: self.messages.deep_view(),
            overflowed: self.overflowed,
        }
    }
}

impl DeepView for ClosedBatch {
    type V = BatchView;

    open spec fn deep_view(&self) -> BatchView {
        self@
    }
}

/// True when one of these lines carries this `msgid`.
pub open spec fn holds_msgid(messages: Seq<LineView>, msgid: Option<Seq<char>>) -> bool {
    msgid is Some && exists|i: int|
        0 <= i < messages.len() && (#[trigger] messages[i]).tag("msgid"@) == msgid
}

impl BatchView {
    /// With one more line, unless the buffer has overflowed, holds the `msgid` of the line already,
    /// or is full. Only a full buffer overflows.
    pub open spec fn with(self, line: LineView, max_buffered: usize) -> BatchView {
        if self.overflowed || holds_msgid(self.messages, line.tag("msgid"@)) {
            self
        } else if self.messages.len() >= max_buffered {
            BatchView { overflowed: true, ..self }
        } else {
            BatchView { messages: self.messages.push(line), ..self }
        }
    }
}

impl ClosedBatch {
    fn push(&mut self, line: Line, max_buffered: usize)
        ensures
            final(self)@ == old(self)@.with(line@, max_buffered),
    {
        if self.overflowed {
            return;
        }
        let ghost msgid = line@.tag("msgid"@);
        if let Some(id) = line.tag("msgid") {
            let mut i: usize = 0;
            while i < self.messages.len()
                invariant
                    i <= self.messages@.len(),
                    self@ == old(self)@,
                    !self.overflowed,
                    msgid == Some(id@),
                    msgid == line@.tag("msgid"@),
                    forall|j: int|
                        0 <= j < i ==> (#[trigger] self@.messages[j]).tag("msgid"@) != msgid,
                decreases self.messages@.len() - i,
            {
                if let Some(other) = self.messages[i].tag("msgid") {
                    if same(other, id) {
                        assert(self@.messages[i as int].tag("msgid"@) == msgid);
                        return;
                    }
                }
                i = i + 1;
            }
        }
        if self.messages.len() >= max_buffered {
            self.overflowed = true;
            return;
        }
        let ghost had = self.messages.deep_view();
        self.messages.push(line);
        assert(self.messages.deep_view() =~= had.push(line@));
    }
}

/// The open `BATCH` framing of one connection.
///
/// Batches are kept by their reference rather than as one "current batch", because sibling batches
/// legally interleave: a line of batch `1` can come between two lines of batch `2`.
pub struct Batches {
    by_reference: SortedMap<String, ClosedBatch>,
    max_buffered: usize,
    max_open: usize,
}

/// What [`Batches`] hold: what each open batch has collected by its reference, how many lines a
/// batch may hold, and how many batches may be open.
#[verifier::ext_equal]
pub struct BatchesView {
    pub by_reference: Map<Seq<char>, BatchView>,
    pub max_buffered: usize,
    pub max_open: usize,
}

impl View for Batches {
    type V = BatchesView;

    closed spec fn view(&self) -> BatchesView {
        BatchesView {
            by_reference: self.by_reference@,
            max_buffered: self.max_buffered,
            max_open: self.max_open,
        }
    }
}

/// The reference that a `BATCH` line names behind this mark.
pub open spec fn marked(line: LineView, mark: char) -> Option<Seq<char>> {
    match line.param(0) {
        Some(marker) => without_prefix(marker, mark),
        None => None,
    }
}

impl BatchesView {
    /// No batch open.
    pub open spec fn none(max_buffered: usize) -> BatchesView {
        BatchesView { by_reference: Map::empty(), max_buffered, max_open: DEFAULT_MAX_OPEN }
    }

    /// No more batches are open, and none holds more lines, than may be.
    pub open spec fn bounded(self) -> bool {
        &&& self.by_reference.dom().finite()
        &&& self.by_reference.len() <= self.max_open
        &&& forall|reference: Seq<char>| #[trigger]
            self.by_reference.contains_key(reference) ==> self.by_reference[reference].messages.len()
                <= self.max_buffered
    }

    /// After a line that opens a batch. A line without a reference and a type opens nothing, and
    /// neither does one whose reference is open already: that would drop what the first batch
    /// under the name has collected.
    pub open spec fn opening(self, line: LineView) -> BatchesView {
        match (marked(line, '+'), line.param(1)) {
            (Some(reference), Some(kind)) => if self.by_reference.contains_key(reference)
                || self.by_reference.len() >= self.max_open {
                self
            } else {
                BatchesView {
                    by_reference: self.by_reference.insert(
                        reference,
                        BatchView {
                            kind,
                            params: line.params.skip(2),
                            parent: line.tag("batch"@),
                            messages: Seq::empty(),
                            overflowed: false,
                        },
                    ),
                    ..self
                }
            },
            _ => self,
        }
    }

    /// The batch that a line closes, if it closes one.
    pub open spec fn closed_by(self, line: LineView) -> Option<BatchView> {
        match marked(line, '-') {
            Some(reference) if self.by_reference.contains_key(reference) => Some(
                self.by_reference[reference],
            ),
            _ => None,
        }
    }

    /// After a line that closes a batch.
    pub open spec fn closing(self, line: LineView) -> BatchesView {
        match marked(line, '-') {
            Some(reference) => BatchesView {
                by_reference: self.by_reference.remove(reference),
                ..self
            },
            None => self,
        }
    }

    /// True when a line belongs to a batch that is open.
    pub open spec fn takes(self, line: LineView) -> bool {
        match line.tag("batch"@) {
            Some(reference) => self.by_reference.contains_key(reference),
            None => false,
        }
    }

    /// After a line was routed to the batch that it belongs to.
    pub open spec fn routing(self, line: LineView) -> BatchesView {
        match line.tag("batch"@) {
            Some(reference) if self.by_reference.contains_key(reference) => BatchesView {
                by_reference: self.by_reference.insert(
                    reference,
                    self.by_reference[reference].with(line, self.max_buffered),
                ),
                ..self
            },
            _ => self,
        }
    }

    /// The batch this many steps out from one, the batch itself being no step out.
    pub open spec fn ancestor(self, reference: Seq<char>, n: nat) -> Option<Seq<char>>
        decreases n,
    {
        if n == 0 {
            Some(reference)
        } else {
            match self.ancestor(reference, (n - 1) as nat) {
                Some(a) if self.by_reference.contains_key(a) => self.by_reference[a].parent,
                _ => None,
            }
        }
    }

    /// True when the batch this many steps out is open and of this type.
    pub open spec fn is_kind(self, reference: Seq<char>, kind: Seq<char>, n: nat) -> bool {
        match self.ancestor(reference, n) {
            Some(a) => self.by_reference.contains_key(a) && self.by_reference[a].kind == kind,
            None => false,
        }
    }

    /// True when a batch, or one that holds it open at whatever remove, is of this type.
    pub open spec fn within(self, reference: Seq<char>, kind: Seq<char>) -> bool {
        exists|n: nat| self.is_kind(reference, kind, n)
    }
}

impl Batches {
    /// A tracker with no batches open, bounding each to [`DEFAULT_MAX_BUFFERED`] lines.
    pub fn new() -> (r: Self)
        ensures
            r@ == BatchesView::none(DEFAULT_MAX_BUFFERED),
    {
        Self::with_max_buffered(DEFAULT_MAX_BUFFERED)
    }

    /// A tracker with no batches open, bounding each to `max_buffered` lines.
    pub fn with_max_buffered(max_buffered: usize) -> (r: Self)
        ensures
            r@ == BatchesView::none(max_buffered),
    {
        Batches { by_reference: SortedMap::new(), max_buffered, max_open: DEFAULT_MAX_OPEN }
    }

    /// Handle a `BATCH +<ref> <type> [params...]` line, opening a new batch.
    ///
    /// A `batch` tag on this line names the outer batch that this one nests inside. A line that
    /// does not carry a `+ref` and a type is no valid open and is ignored.
    pub fn open(&mut self, line: &Line)
        ensures
            final(self)@ == old(self)@.opening(line@),
    {
        let reference = match line.param(0) {
            Some(marker) => match strip_char(marker, '+') {
                Some(reference) => reference,
                None => return,
            },
            None => return,
        };
        let kind = match line.param(1) {
            Some(kind) => kind.to_owned(),
            None => return,
        };
        if self.by_reference.contains_key(&reference) || self.by_reference.len() >= self.max_open {
            return;
        }
        let params = copy_strings(&line.params, 2, line.params.len());
        assert(params.deep_view() =~= line@.params.skip(2));
        let batch = ClosedBatch {
            kind,
            params,
            parent: owned(line.tag("batch")),
            messages: Vec::new(),
            overflowed: false,
        };
        assert(batch@.messages =~= Seq::empty());
        self.by_reference.insert(reference, batch);
    }

    /// Handle a `BATCH -<ref>` line, closing the batch and returning what it collected.
    ///
    /// Nothing for a reference that was never opened.
    pub fn close(&mut self, line: &Line) -> (r: Option<ClosedBatch>)
        ensures
            r.deep_view() == old(self)@.closed_by(line@),
            final(self)@ == old(self)@.closing(line@),
    {
        let reference = match line.param(0) {
            Some(marker) => match strip_char(marker, '-') {
                Some(reference) => reference,
                None => return None,
            },
            None => return None,
        };
        self.by_reference.remove(&reference)
    }

    /// Route one line into the batch that its `batch` tag names, if that batch is still open.
    ///
    /// The line comes back when it carries no `batch` tag or names a reference that is not open,
    /// so that the caller can handle it as an ordinary live line.
    pub fn route(&mut self, line: Line) -> (r: Option<Line>)
        ensures
            r == (if old(self)@.takes(line@) {
                None
            } else {
                Some(line)
            }),
            final(self)@ == old(self)@.routing(line@),
    {
        let max_buffered: usize = self.max_buffered;
        let reference = match line.tag("batch") {
            Some(reference) => reference.to_owned(),
            None => return Some(line),
        };
        match self.by_reference.get_mut(&reference) {
            Some(batch) => {
                batch.push(line, max_buffered);
                None
            },
            None => Some(line),
        }
    }

    /// True when `reference` names an open batch of type `kind`, or any batch that holds it open
    /// (directly or transitively) does.
    ///
    /// A line's `batch` tag names its innermost batch, which may itself be nested inside others,
    /// so whether a line is replayed history is a question to the whole chain. A server could name
    /// two batches as each other's parent; no chain without a repetition is longer than there are
    /// batches open, so that bounds the walk.
    pub fn is_within(&self, reference: &str, kind: &str) -> (r: bool)
        ensures
            r == self@.within(reference@, kind@),
    {
        let n: usize = self.by_reference.len();
        let mut current: Option<String> = Some(reference.to_owned());
        let mut steps: usize = 0;
        loop
            invariant
                n == self@.by_reference.len(),
                self@.by_reference.dom().finite(),
                steps <= n,
                current.deep_view() == self@.ancestor(reference@, steps as nat),
                forall|k: nat| k < steps ==> !#[trigger] self@.is_kind(reference@, kind@, k),
            decreases n - steps,
        {
            let at = match current {
                Some(at) => at,
                None => {
                    proof {
                        lemma_no_further(self@, reference@, kind@, steps as nat);
                    }
                    return false;
                },
            };
            let parent = match self.by_reference.get(&at) {
                Some(batch) => {
                    if same(&batch.kind, kind) {
                        assert(self@.is_kind(reference@, kind@, steps as nat));
                        return true;
                    }
                    match &batch.parent {
                        Some(parent) => Some(parent.clone()),
                        None => None,
                    }
                },
                None => {
                    assert(self@.ancestor(reference@, (steps + 1) as nat) is None);
                    proof {
                        lemma_no_further(self@, reference@, kind@, (steps + 1) as nat);
                    }
                    return false;
                },
            };
            if steps >= n {
                proof {
                    lemma_shortest(self@, reference@, kind@);
                }
                return false;
            }
            steps = steps + 1;
            current = parent;
        }
    }

    /// Drop every open batch outright, for a connection that just died.
    ///
    /// Nothing that an unfinished batch was assembling is worth keeping: a reconnect asks the
    /// server for whatever it needs again.
    pub fn drop_all(&mut self)
        ensures
            final(self)@ == (BatchesView { by_reference: Map::empty(), ..old(self)@ }),
    {
        self.by_reference.clear();
    }
}

impl Default for Batches {
    fn default() -> (r: Self)
        ensures
            r@ == BatchesView::none(DEFAULT_MAX_BUFFERED),
    {
        Self::new()
    }
}

/// Where a chain ends, nothing further out is of any type.
proof fn lemma_no_further(m: BatchesView, reference: Seq<char>, kind: Seq<char>, n: nat)
    requires
        m.ancestor(reference, n) is None,
        forall|k: nat| k < n ==> !#[trigger] m.is_kind(reference, kind, k),
    ensures
        !m.within(reference, kind),
{
    assert forall|k: nat| !m.is_kind(reference, kind, k) by {
        if k >= n {
            lemma_ends(m, reference, n, k);
        }
    }
}

proof fn lemma_ends(m: BatchesView, reference: Seq<char>, n: nat, k: nat)
    requires
        m.ancestor(reference, n) is None,
        n <= k,
    ensures
        m.ancestor(reference, k) is None,
    decreases k,
{
    if k > n {
        lemma_ends(m, reference, n, (k - 1) as nat);
    }
}

/// From equal batches equal chains go out.
proof fn lemma_same_from(m: BatchesView, reference: Seq<char>, i: nat, j: nat, d: nat)
    requires
        m.ancestor(reference, i) == m.ancestor(reference, j),
    ensures
        m.ancestor(reference, i + d) == m.ancestor(reference, j + d),
    decreases d,
{
    if d > 0 {
        lemma_same_from(m, reference, i, j, (d - 1) as nat);
    }
}

/// The first place on a chain where a batch is of a type.
proof fn lemma_first(m: BatchesView, reference: Seq<char>, kind: Seq<char>, n: nat) -> (first: nat)
    requires
        m.is_kind(reference, kind, n),
    ensures
        first <= n,
        m.is_kind(reference, kind, first),
        forall|k: nat| k < first ==> !#[trigger] m.is_kind(reference, kind, k),
    decreases n,
{
    if exists|k: nat| k < n && m.is_kind(reference, kind, k) {
        let k = choose|k: nat| k < n && m.is_kind(reference, kind, k);
        lemma_first(m, reference, kind, k)
    } else {
        n
    }
}

/// The batches on a chain that ends in an open one are all open.
proof fn lemma_open_on_the_way(m: BatchesView, reference: Seq<char>, n: nat, k: nat)
    requires
        k < n,
        m.ancestor(reference, n) is Some,
    ensures
        m.ancestor(reference, k) is Some,
        m.by_reference.contains_key(m.ancestor(reference, k)->0),
    decreases n,
{
    if k < n - 1 {
        lemma_open_on_the_way(m, reference, (n - 1) as nat, k);
    }
}

/// A batch of a type is found within as many steps as there are batches open, or not at all.
proof fn lemma_shortest(m: BatchesView, reference: Seq<char>, kind: Seq<char>)
    requires
        m.by_reference.dom().finite(),
    ensures
        m.within(reference, kind) ==> exists|n: nat|
            n < m.by_reference.len() && #[trigger] m.is_kind(reference, kind, n),
{
    if m.within(reference, kind) {
        let any = choose|n: nat| m.is_kind(reference, kind, n);
        let n = lemma_first(m, reference, kind, any);
        let chain = Seq::new((n + 1) as nat, |i: int| m.ancestor(reference, i as nat)->0);
        assert forall|i: int| 0 <= i < chain.len() implies m.by_reference.contains_key(
            #[trigger] chain[i],
        ) && m.ancestor(reference, i as nat) == Some(chain[i]) by {
            if i < n {
                lemma_open_on_the_way(m, reference, n, i as nat);
            }
        }
        assert(chain.no_duplicates()) by {
            assert forall|i: int, j: int| 0 <= i < j < chain.len() implies chain[i] != chain[j] by {
                if chain[i] == chain[j] {
                    let d = (n - j) as nat;
                    lemma_same_from(m, reference, i as nat, j as nat, d);
                    assert(m.is_kind(reference, kind, (i + d) as nat));
                }
            }
        }
        chain.unique_seq_to_set();
        assert(chain.to_set().subset_of(m.by_reference.dom()));
        vstd::set_lib::lemma_len_subset(chain.to_set(), m.by_reference.dom());
        assert(n < m.by_reference.len());
    }
}

/// However many batches a server opens and whatever it sends into them, what is held stays bounded:
/// opening, routing and closing keep the bounds.
pub proof fn law_batches_stay_bounded(batches: BatchesView, line: LineView)
    requires
        batches.bounded(),
    ensures
        batches.opening(line).bounded(),
        batches.routing(line).bounded(),
        batches.closing(line).bounded(),
{
}

/// A reference that is open already keeps what it has collected: opening it again changes nothing.
pub proof fn law_first_batch_keeps_its_name(batches: BatchesView, line: LineView)
    requires
        marked(line, '+') is Some,
        batches.by_reference.contains_key(marked(line, '+')->0),
    ensures
        batches.opening(line) == batches,
{
}

/// Sibling batches interleave: a line routed to one batch leaves every other as it was.
pub proof fn law_batches_are_independent(
    batches: BatchesView,
    line: LineView,
    other: Seq<char>,
)
    requires
        line.tag("batch"@) != Some(other),
    ensures
        batches.routing(line).by_reference.contains_key(other)
            == batches.by_reference.contains_key(other),
        batches.by_reference.contains_key(other) ==> batches.routing(line).by_reference[other]
            == batches.by_reference[other],
{
}

/// A line is either held by a batch or handed back, and one that is handed back changes nothing.
pub proof fn law_routed_or_handed_back(batches: BatchesView, line: LineView)
    requires
        !batches.takes(line),
    ensures
        batches.routing(line) == batches,
{
}

/// A batch holds each `msgid` once.
pub open spec fn msgids_once(messages: Seq<LineView>) -> bool {
    forall|i: int, j: int|
        0 <= i < j < messages.len() && (#[trigger] messages[i]).tag("msgid"@) is Some ==> messages[i].tag(
            "msgid"@,
        ) != (#[trigger] messages[j]).tag("msgid"@)
}

/// Whatever a server repeats within one batch is stored once.
pub proof fn law_stored_once(batch: BatchView, line: LineView, max_buffered: usize)
    requires
        msgids_once(batch.messages),
    ensures
        msgids_once(batch.with(line, max_buffered).messages),
{
}

} // verus!

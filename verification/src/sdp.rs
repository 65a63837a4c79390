//! Session descriptions that are too long for one frame: splitting one into numbered chunks, and
//! putting the chunks together again.

use vstd::prelude::*;
use vstd::string::*;

use crate::sorted::{Ordered, SortKey, SortedMap};
use crate::text::{chars_of, string_between};
use crate::voice::{ChunkMeta, ChunkMetaView};

verus! {

/// Default budget of a chunk, in bytes.
///
/// IRCv3 lets the value of a client tag hold 4094 bytes, and some servers relay up to 8191. A host
/// that wants headroom for JSON and tag escaping passes a smaller budget of its own.
pub const DEFAULT_CHUNK_BUDGET: usize = 8191;

/// How many chunks one description may claim before it is refused outright.
///
/// A peer naming an implausibly large `total` would otherwise have chunks kept forever, waiting
/// for pieces that may never arrive.
pub const DEFAULT_MAX_CHUNKS_PER_REASSEMBLY: usize = 64;

/// How many descriptions may be in flight at once.
///
/// A peer opening an unbounded number of ids, each fed only a fraction of its chunks, would
/// otherwise make this grow without limit.
pub const DEFAULT_MAX_CONCURRENT_REASSEMBLIES: usize = 16;

/// One numbered slice of a split `offer` or `answer`.
#[derive(Debug, Clone, PartialEq, Eq)]
pub struct SdpChunk {
    /// Which slice this is, of what.
    pub chunk: ChunkMeta,
    /// The slice itself.
    pub sdp: String,
}

/// What an [`SdpChunk`] says.
#[verifier::ext_equal]
pub struct SdpChunkView {
    pub chunk: ChunkMetaView,
    pub sdp: Seq<char>,
}

impl View for SdpChunk {
    type V = SdpChunkView;

    open spec fn view(&self) -> SdpChunkView {
        SdpChunkView { chunk: self.chunk@, sdp: self.sdp@ }
    }
}

impl DeepView for SdpChunk {
    type V = SdpChunkView;

    open spec fn deep_view(&self) -> SdpChunkView {
        self@
    }
}

/// How many bytes a character takes in UTF-8.
pub open spec fn char_width(c: char) -> nat {
    if (c as u32) < 0x80 {
        1
    } else if (c as u32) < 0x800 {
        2
    } else if (c as u32) < 0x10000 {
        3
    } else {
        4
    }
}

/// How many bytes a text takes in UTF-8.
pub open spec fn byte_len(s: Seq<char>) -> nat
    decreases s.len(),
{
    if s.len() == 0 {
        0
    } else {
        char_width(s[0]) + byte_len(s.skip(1))
    }
}

/// How many of the leading characters fit in this many bytes.
pub open spec fn fit_len(s: Seq<char>, budget: nat) -> nat
    decreases s.len(),
{
    if s.len() == 0 || char_width(s[0]) > budget {
        0
    } else {
        1 + fit_len(s.skip(1), (budget - char_width(s[0])) as nat)
    }
}

/// How many characters the next piece takes: as many as fit, and one where not even that fits.
pub open spec fn piece_len(s: Seq<char>, budget: nat) -> nat {
    if fit_len(s, budget) == 0 {
        1
    } else {
        fit_len(s, budget)
    }
}

/// The pieces of a text, each as long as the budget allows.
pub open spec fn pieces(s: Seq<char>, budget: nat) -> Seq<Seq<char>>
    decreases s.len(),
{
    if s.len() == 0 {
        Seq::empty()
    } else {
        let n = piece_len(s, budget) as int;
        proof {
            lemma_fit(s, budget);
        }
        seq![s.take(n)] + pieces(s.skip(n), budget)
    }
}

/// The largest number that fits in 32 bits, or this one.
pub open spec fn at_most_u32(n: nat) -> u32 {
    if n <= u32::MAX {
        n as u32
    } else {
        u32::MAX
    }
}

/// These pieces, numbered.
pub open spec fn numbered(parts: Seq<Seq<char>>, id: Seq<char>) -> Seq<SdpChunkView> {
    Seq::new(
        parts.len(),
        |i: int|
            (SdpChunkView {
                chunk: (ChunkMetaView {
                    id,
                    seq: at_most_u32(i as nat),
                    total: at_most_u32(parts.len()),
                }),
                sdp: parts[i],
            }),
    )
}

/// The chunks that a description is sent as, or nothing where it fits in one frame.
pub open spec fn split(sdp: Seq<char>, id: Seq<char>, budget: nat) -> Option<Seq<SdpChunkView>> {
    if budget == 0 || byte_len(sdp) <= budget {
        None
    } else {
        Some(numbered(pieces(sdp, budget), id))
    }
}

/// The texts one after the other.
pub open spec fn concatenated(parts: Seq<Seq<char>>) -> Seq<char>
    decreases parts.len(),
{
    if parts.len() == 0 {
        Seq::empty()
    } else {
        concatenated(parts.drop_last()) + parts.last()
    }
}

fn width(c: char) -> (r: usize)
    ensures
        r == char_width(c),
{
    let n: u32 = c as u32;
    if n < 0x80 {
        1
    } else if n < 0x800 {
        2
    } else if n < 0x10000 {
        3
    } else {
        4
    }
}

/// What fits is no longer than the text, and all of it fits exactly when its bytes do.
pub proof fn lemma_fit(s: Seq<char>, budget: nat)
    ensures
        fit_len(s, budget) <= s.len(),
        byte_len(s.take(fit_len(s, budget) as int)) <= budget,
        (fit_len(s, budget) == s.len()) == (byte_len(s) <= budget),
    decreases s.len(),
{
    if s.len() > 0 && char_width(s[0]) <= budget {
        lemma_fit(s.skip(1), (budget - char_width(s[0])) as nat);
        let n = fit_len(s, budget) as int;
        assert(s.take(n).skip(1) =~= s.skip(1).take(n - 1));
    }
}

/// How many characters from `from` on fit in the budget.
fn fitting(chars: &Vec<char>, from: usize, budget: usize) -> (r: usize)
    requires
        from <= chars@.len(),
    ensures
        r == fit_len(chars@.skip(from as int), budget as nat),
        from + r <= chars@.len(),
{
    let mut at: usize = from;
    let mut left: usize = budget;
    while at < chars.len() && width(chars[at]) <= left
        invariant
            from <= at <= chars@.len(),
            fit_len(chars@.skip(from as int), budget as nat) == (at - from) + fit_len(
                chars@.skip(at as int),
                left as nat,
            ),
        decreases chars@.len() - at,
    {
        assert(chars@.skip(at as int).skip(1) =~= chars@.skip(at + 1));
        left = left - width(chars[at]);
        at = at + 1;
    }
    at - from
}

/// Cut a text into pieces that each fit the budget, never through a character.
///
/// A character wider than the budget gets a piece of its own, so that every piece holds something.
fn char_chunks(chars: &Vec<char>, budget: usize) -> (r: Vec<String>)
    ensures
        r.deep_view() == pieces(chars@, budget as nat),
{
    let mut out: Vec<String> = Vec::new();
    let mut start: usize = 0;
    assert(out.deep_view() =~= Seq::empty());
    assert(chars@.skip(0) =~= chars@);
    while start < chars.len()
        invariant
            start <= chars@.len(),
            pieces(chars@, budget as nat) == out.deep_view() + pieces(
                chars@.skip(start as int),
                budget as nat,
            ),
        decreases chars@.len() - start,
    {
        let mut n: usize = fitting(chars, start, budget);
        if n == 0 {
            n = 1;
        }
        let ghost had = out.deep_view();
        let ghost rest = chars@.skip(start as int);
        let piece = string_between(chars, start, start + n);
        assert(piece@ =~= rest.take(n as int));
        out.push(piece);
        assert(out.deep_view() =~= had.push(piece@));
        assert(rest.skip(n as int) =~= chars@.skip(start + n));
        start = start + n;
        assert(out.deep_view() + pieces(chars@.skip(start as int), budget as nat) =~= had + pieces(
            rest,
            budget as nat,
        ));
    }
    assert(chars@.skip(start as int) =~= Seq::empty());
    assert(out.deep_view() =~= pieces(chars@, budget as nat));
    out
}

fn to_u32(n: usize) -> (r: u32)
    ensures
        r == at_most_u32(n as nat),
{
    if n <= u32::MAX as usize {
        n as u32
    } else {
        u32::MAX
    }
}

/// Split a description into chunks of at most `budget` bytes each, sharing `id`.
///
/// Nothing where it already fits, so that the caller sends it whole rather than as a chunk of one.
pub fn split_sdp(sdp: &str, id: &str, budget: usize) -> (r: Option<Vec<SdpChunk>>)
    ensures
        r.deep_view() == split(sdp@, id@, budget as nat),
{
    let chars = chars_of(sdp);
    proof {
        lemma_fit(chars@, budget as nat);
        assert(chars@.skip(0) =~= chars@);
    }
    if budget == 0 || fitting(&chars, 0, budget) == chars.len() {
        return None;
    }
    let slices = char_chunks(&chars, budget);
    let total: u32 = to_u32(slices.len());
    let ghost all = numbered(slices.deep_view(), id@);
    let mut out: Vec<SdpChunk> = Vec::new();
    let mut i: usize = 0;
    assert(out.deep_view() =~= all.take(0));
    while i < slices.len()
        invariant
            i <= slices@.len() == all.len(),
            total == at_most_u32(slices@.len()),
            all == numbered(slices.deep_view(), id@),
            out.deep_view() == all.take(i as int),
        decreases slices@.len() - i,
    {
        let chunk = SdpChunk {
            chunk: ChunkMeta { id: id.to_owned(), seq: to_u32(i), total },
            sdp: slices[i].clone(),
        };
        let ghost had = out.deep_view();
        assert(chunk@ == all[i as int]);
        out.push(chunk);
        assert(out.deep_view() =~= had.push(chunk@));
        i = i + 1;
        assert(out.deep_view() =~= all.take(i as int));
    }
    assert(all.take(all.len() as int) =~= all);
    Some(out)
}

impl Ordered for u32 {
    open spec fn precedes(self, other: Self) -> bool {
        self < other
    }

    proof fn irreflexive(a: Self) {
    }

    proof fn transitive(a: Self, b: Self, c: Self) {
    }

    proof fn connected(a: Self, b: Self) {
    }
}

impl SortKey for u32 {
    type Rank = u32;

    open spec fn rank(&self) -> u32 {
        *self
    }

    fn before(&self, other: &Self) -> (r: bool) {
        *self < *other
    }

    fn is(&self, other: &Self) -> (r: bool) {
        *self == *other
    }

    fn copied(&self) -> (r: Self) {
        *self
    }
}

/// A description of which some chunks have come.
struct PartialSdp {
    total: u32,
    parts: SortedMap<u32, String>,
}

/// What has come of one description: how many chunks it has, and those that are here.
#[verifier::ext_equal]
pub struct PartialView {
    pub total: u32,
    pub parts: Map<u32, Seq<char>>,
}

impl DeepView for PartialSdp {
    type V = PartialView;

    closed spec fn deep_view(&self) -> PartialView {
        PartialView { total: self.total, parts: self.parts@ }
    }
}

impl PartialView {
    /// The chunk numbers are in range, and at least one is still missing.
    pub open spec fn waiting(self) -> bool {
        &&& forall|seq: u32| self.parts.contains_key(seq) ==> seq < self.total
        &&& self.parts.dom().finite()
        &&& self.parts.len() < self.total
    }

    /// The chunks in order.
    pub open spec fn joined(self) -> Seq<char> {
        concatenated(Seq::new(self.total as nat, |i: int| self.parts[i as u32]))
    }
}

/// A buffer that puts split `offer` and `answer` frames together, within bounds.
pub struct SdpReassembler {
    partials: SortedMap<String, PartialSdp>,
    max_chunks: usize,
    max_concurrent: usize,
}

/// What an [`SdpReassembler`] holds: what has come of each description by its id, how many chunks
/// a description may have, and how many descriptions may be in flight.
#[verifier::ext_equal]
pub struct ReassemblerView {
    pub partials: Map<Seq<char>, PartialView>,
    pub max_chunks: usize,
    pub max_concurrent: usize,
}

impl View for SdpReassembler {
    type V = ReassemblerView;

    closed spec fn view(&self) -> ReassemblerView {
        ReassemblerView {
            partials: self.partials@,
            max_chunks: self.max_chunks,
            max_concurrent: self.max_concurrent,
        }
    }
}

impl ReassemblerView {
    /// No more descriptions are in flight than may be, and each waits for a chunk and has no more
    /// of them than it may have.
    pub open spec fn bounded(self) -> bool {
        &&& self.partials.dom().finite()
        &&& self.partials.len() <= self.max_concurrent
        &&& forall|id: Seq<char>| #[trigger]
            self.partials.contains_key(id) ==> self.partials[id].waiting()
                && self.partials[id].total <= self.max_chunks
    }

    /// True when a chunk is turned away without a trace: it makes no sense, claims too much, opens
    /// one description too many, or disagrees with the chunks before it.
    pub open spec fn refuses(self, chunk: ChunkMetaView) -> bool {
        ||| chunk.total == 0
        ||| chunk.total > self.max_chunks
        ||| chunk.seq >= chunk.total
        ||| if self.partials.contains_key(chunk.id) {
            self.partials[chunk.id].total != chunk.total
        } else {
            self.partials.len() >= self.max_concurrent
        }
    }

    /// What is there of a description once this chunk is.
    pub open spec fn gathered(self, chunk: ChunkMetaView, sdp: Seq<char>) -> PartialView {
        let had = if self.partials.contains_key(chunk.id) {
            self.partials[chunk.id].parts
        } else {
            Map::empty()
        };
        PartialView { total: chunk.total, parts: had.insert(chunk.seq, sdp) }
    }

    /// What is held after a chunk came.
    pub open spec fn after(self, chunk: ChunkMetaView, sdp: Seq<char>) -> ReassemblerView {
        let partial = self.gathered(chunk, sdp);
        if self.refuses(chunk) {
            self
        } else if partial.parts.len() == partial.total {
            ReassemblerView { partials: self.partials.remove(chunk.id), ..self }
        } else {
            ReassemblerView { partials: self.partials.insert(chunk.id, partial), ..self }
        }
    }

    /// The description that a chunk completes, if it completes one.
    pub open spec fn yielded(self, chunk: ChunkMetaView, sdp: Seq<char>) -> Option<Seq<char>> {
        let partial = self.gathered(chunk, sdp);
        if !self.refuses(chunk) && partial.parts.len() == partial.total {
            Some(partial.joined())
        } else {
            None
        }
    }
}

/// Numbers below `total`, as many as that, are all the numbers below it.
proof fn lemma_all_there(parts: Set<u32>, total: u32)
    requires
        parts.finite(),
        forall|seq: u32| parts.contains(seq) ==> seq < total,
    ensures
        parts.len() <= total,
        parts.len() == total ==> forall|seq: u32| seq < total ==> parts.contains(seq),
    decreases total,
{
    if total == 0 {
        assert(parts =~= Set::empty());
    } else {
        let last = (total - 1) as u32;
        lemma_all_there(parts.remove(last), last);
        if parts.len() == total {
            assert forall|seq: u32| seq < total implies parts.contains(seq) by {
                if seq != last {
                    assert(parts.remove(last).contains(seq));
                }
            }
        }
    }
}

impl SdpReassembler {
    #[verifier::type_invariant]
    spec fn well_formed(self) -> bool {
        self@.bounded()
    }

    /// A buffer with the default bounds.
    pub fn new() -> (r: Self)
        ensures
            r@ == (ReassemblerView {
                partials: Map::empty(),
                max_chunks: DEFAULT_MAX_CHUNKS_PER_REASSEMBLY,
                max_concurrent: DEFAULT_MAX_CONCURRENT_REASSEMBLIES,
            }),
    {
        Self::with_bounds(DEFAULT_MAX_CHUNKS_PER_REASSEMBLY, DEFAULT_MAX_CONCURRENT_REASSEMBLIES)
    }

    /// A buffer that takes `max_chunks` per id, and `max_concurrent` ids at once.
    pub fn with_bounds(max_chunks: usize, max_concurrent: usize) -> (r: Self)
        ensures
            r@ == (ReassemblerView { partials: Map::empty(), max_chunks, max_concurrent }),
    {
        SdpReassembler { partials: SortedMap::new(), max_chunks, max_concurrent }
    }

    /// Feed one chunk, and get the whole description once every piece that `chunk.total` names
    /// has come, in `seq` order whatever the order they came in.
    pub fn push(&mut self, chunk: &ChunkMeta, sdp: &str) -> (r: Option<String>)
        ensures
            final(self)@ == old(self)@.after(chunk@, sdp@),
            r.deep_view() == old(self)@.yielded(chunk@, sdp@),
            final(self)@.bounded(),
    {
        proof {
            use_type_invariant(&*self);
        }
        let ghost before = self@;
        if chunk.total == 0 || chunk.seq >= chunk.total || chunk.total as u64
            > self.max_chunks as u64 {
            return None;
        }
        let known = self.partials.contains_key(&chunk.id);
        if !known && self.partials.len() >= self.max_concurrent {
            return None;
        }
        let mut partials: SortedMap<String, PartialSdp> = SortedMap::new();
        core::mem::swap(&mut partials, &mut self.partials);
        assert(partials@ == before.partials);
        let mut partial = match partials.remove(&chunk.id) {
            Some(partial) => partial,
            None => PartialSdp { total: chunk.total, parts: SortedMap::new() },
        };
        if partial.total != chunk.total {
            partials.insert(chunk.id.clone(), partial);
            assert(partials@ =~= before.partials);
            self.partials = partials;
            return None;
        }
        let ghost had = partial.parts@;
        partial.parts.insert(chunk.seq, sdp.to_owned());
        let ghost now = partial.deep_view();
        assert(now == before.gathered(chunk@, sdp@));
        let n: usize = partial.parts.len();
        proof {
            lemma_all_there(now.parts.dom(), now.total);
        }
        if n as u64 != chunk.total as u64 {
            partials.insert(chunk.id.clone(), partial);
            assert(partials@ =~= before.partials.insert(chunk.id@, now));
            self.partials = partials;
            return None;
        }
        self.partials = partials;
        let ghost all = Seq::new(now.total as nat, |i: int| now.parts[i as u32]);
        let mut joined = String::new();
        let mut seq: u32 = 0;
        assert(all.take(0) =~= Seq::empty());
        while seq < partial.total
            invariant
                seq <= partial.total == now.total,
                all == Seq::new(now.total as nat, |i: int| now.parts[i as u32]),
                now == partial.deep_view(),
                forall|k: u32| k < now.total ==> now.parts.contains_key(k),
                joined@ == concatenated(all.take(seq as int)),
            decreases partial.total - seq,
        {
            assert(all.take(seq + 1).drop_last() =~= all.take(seq as int));
            if let Some(part) = partial.parts.get(&seq) {
                joined.append(part);
            }
            seq = seq + 1;
        }
        assert(all.take(all.len() as int) =~= all);
        Some(joined)
    }

    /// How many descriptions are waiting for chunks.
    pub fn pending_len(&self) -> (r: usize)
        ensures
            r == self@.partials.len(),
    {
        self.partials.len()
    }

    /// Discard everything in flight, for a connection that just dropped.
    pub fn drop_all(&mut self)
        ensures
            final(self)@ == (ReassemblerView { partials: Map::empty(), ..old(self)@ }),
    {
        self.partials = SortedMap::new();
    }
}

impl Default for SdpReassembler {
    fn default() -> (r: Self)
        ensures
            r@ == (ReassemblerView {
                partials: Map::empty(),
                max_chunks: DEFAULT_MAX_CHUNKS_PER_REASSEMBLY,
                max_concurrent: DEFAULT_MAX_CONCURRENT_REASSEMBLIES,
            }),
    {
        Self::new()
    }
}

/// Texts one after the other, the first taken apart from the rest.
pub proof fn lemma_concatenated_first(parts: Seq<Seq<char>>)
    requires
        parts.len() > 0,
    ensures
        concatenated(parts) == parts[0] + concatenated(parts.skip(1)),
    decreases parts.len(),
{
    if parts.len() == 1 {
        assert(parts.drop_last() =~= Seq::empty());
        assert(parts.skip(1) =~= Seq::empty());
        assert(concatenated(parts.drop_last()) =~= Seq::empty());
        assert(concatenated(parts) =~= parts[0]);
    } else {
        lemma_concatenated_first(parts.drop_last());
        assert(parts.drop_last().skip(1) =~= parts.skip(1).drop_last());
        assert(concatenated(parts) =~= parts[0] + concatenated(parts.skip(1)));
    }
}

/// Splitting loses nothing: the pieces of a text, one after the other, are the text.
pub proof fn law_pieces_join(s: Seq<char>, budget: nat)
    ensures
        concatenated(pieces(s, budget)) == s,
    decreases s.len(),
{
    if s.len() == 0 {
        assert(concatenated(pieces(s, budget)) =~= s);
    } else {
        lemma_fit(s, budget);
        let n = piece_len(s, budget) as int;
        law_pieces_join(s.skip(n), budget);
        lemma_concatenated_first(pieces(s, budget));
        assert(pieces(s, budget).skip(1) =~= pieces(s.skip(n), budget));
        assert(s.take(n) + s.skip(n) =~= s);
    }
}

/// A piece is never empty, and it takes no more bytes than the budget unless it is one character
/// that alone takes more.
pub proof fn law_pieces_fit(s: Seq<char>, budget: nat, i: int)
    requires
        0 <= i < pieces(s, budget).len(),
    ensures
        pieces(s, budget)[i].len() > 0,
        byte_len(pieces(s, budget)[i]) <= budget || pieces(s, budget)[i].len() == 1,
    decreases s.len(),
{
    lemma_fit(s, budget);
    let n = piece_len(s, budget) as int;
    if i > 0 {
        law_pieces_fit(s.skip(n), budget, i - 1);
    }
}

/// A text that does not fit has at least two pieces, so a chunk is never one of one.
pub proof fn law_split_in_two(s: Seq<char>, budget: nat)
    requires
        budget > 0,
        byte_len(s) > budget,
    ensures
        pieces(s, budget).len() >= 2 || s.len() == 1,
{
    lemma_fit(s, budget);
    let n = piece_len(s, budget) as int;
    if s.len() > 1 {
        assert(n < s.len());
        let rest = s.skip(n);
        assert(pieces(rest, budget).len() >= 1);
    }
}

/// What is held after these chunks came, one after the other.
pub open spec fn fed(view: ReassemblerView, chunks: Seq<SdpChunkView>) -> ReassemblerView
    decreases chunks.len(),
{
    if chunks.len() == 0 {
        view
    } else {
        fed(view, chunks.drop_last()).after(chunks.last().chunk, chunks.last().sdp)
    }
}

/// The chunks in the order that these places name.
pub open spec fn reordered(chunks: Seq<SdpChunkView>, order: Seq<int>) -> Seq<SdpChunkView> {
    order.map_values(|i: int| chunks[i])
}

/// The chunks of one description that have come, by their number.
spec fn arrived(parts: Seq<Seq<char>>, order: Seq<int>) -> Map<u32, Seq<char>>
    decreases order.len(),
{
    if order.len() == 0 {
        Map::empty()
    } else {
        arrived(parts, order.drop_last()).insert(order.last() as u32, parts[order.last()])
    }
}

proof fn lemma_arrived(parts: Seq<Seq<char>>, order: Seq<int>)
    requires
        parts.len() <= u32::MAX,
        order.no_duplicates(),
        forall|k: int| 0 <= k < order.len() ==> 0 <= #[trigger] order[k] < parts.len(),
    ensures
        arrived(parts, order).dom().finite(),
        arrived(parts, order).len() == order.len(),
        forall|seq: u32| #[trigger]
            arrived(parts, order).contains_key(seq) ==> order.contains(seq as int) && seq
                < parts.len() && arrived(parts, order)[seq] == parts[seq as int],
    decreases order.len(),
{
    if order.len() > 0 {
        let rest = order.drop_last();
        lemma_arrived(parts, rest);
        let last = order.last();
        if arrived(parts, rest).contains_key(last as u32) {
            assert(rest.contains(last));
            let k = rest.index_of(last);
            assert(order[k] == order[order.len() - 1]);
        }
        assert forall|seq: u32| arrived(parts, order).contains_key(seq) implies order.contains(
            seq as int,
        ) && seq < parts.len() && arrived(parts, order)[seq] == parts[seq as int] by {
            if seq != last as u32 {
                assert(arrived(parts, rest).contains_key(seq));
                let k = rest.index_of(seq as int);
                assert(order[k] == seq as int);
            } else {
                assert(order[order.len() - 1] == seq as int);
            }
        }
    }
}

proof fn lemma_fed(
    view: ReassemblerView,
    parts: Seq<Seq<char>>,
    id: Seq<char>,
    order: Seq<int>,
)
    requires
        0 < parts.len() <= u32::MAX,
        parts.len() <= view.max_chunks,
        view.bounded(),
        !view.partials.contains_key(id),
        view.partials.len() < view.max_concurrent,
        order.no_duplicates(),
        forall|k: int| 0 <= k < order.len() ==> 0 <= #[trigger] order[k] < parts.len(),
        order.len() < parts.len(),
    ensures
        fed(view, reordered(numbered(parts, id), order)) == (if order.len() == 0 {
            view
        } else {
            ReassemblerView {
                partials: view.partials.insert(
                    id,
                    PartialView { total: parts.len() as u32, parts: arrived(parts, order) },
                ),
                ..view
            }
        }),
    decreases order.len(),
{
    let chunks = numbered(parts, id);
    if order.len() > 0 {
        let rest = order.drop_last();
        lemma_fed(view, parts, id, rest);
        lemma_arrived(parts, order);
        let all = reordered(chunks, order);
        assert(all.drop_last() =~= reordered(chunks, rest));
        let before = fed(view, reordered(chunks, rest));
        let chunk = all.last().chunk;
        assert(chunk.seq == order.last());
        assert(before.gathered(chunk, all.last().sdp).parts =~= arrived(parts, order));
        assert(fed(view, all).partials =~= view.partials.insert(
            id,
            PartialView { total: parts.len() as u32, parts: arrived(parts, order) },
        ));
    }
}

/// Chunks come together in whatever order they arrive: fed every chunk of a description once, a
/// buffer that has room for it gives nothing until the last, then the whole description, and holds
/// what it held before.
pub proof fn law_reassembled(
    view: ReassemblerView,
    sdp: Seq<char>,
    id: Seq<char>,
    budget: nat,
    order: Seq<int>,
)
    requires
        view.bounded(),
        split(sdp, id, budget) is Some,
        pieces(sdp, budget).len() <= u32::MAX,
        pieces(sdp, budget).len() <= view.max_chunks,
        !view.partials.contains_key(id),
        view.partials.len() < view.max_concurrent,
        order.len() == pieces(sdp, budget).len(),
        order.no_duplicates(),
        forall|k: int| 0 <= k < order.len() ==> 0 <= #[trigger] order[k] < order.len(),
    ensures
        ({
            let sent = reordered(split(sdp, id, budget)->0, order);
            &&& fed(view, sent) == view
            &&& forall|k: int|
                0 <= k < sent.len() ==> fed(view, sent.take(k)).yielded(
                    (#[trigger] sent[k]).chunk,
                    sent[k].sdp,
                ) == (if k + 1 == sent.len() {
                    Some(sdp)
                } else {
                    None
                })
        }),
{
    let parts = pieces(sdp, budget);
    let chunks = numbered(parts, id);
    let sent = reordered(chunks, order);
    assert(sent.len() > 0) by {
        lemma_fit(sdp, budget);
        assert(sdp.len() > 0);
    }
    assert forall|k: int| 0 <= k < sent.len() implies fed(view, sent.take(k)).yielded(
        (#[trigger] sent[k]).chunk,
        sent[k].sdp,
    ) == (if k + 1 == sent.len() {
        Some(sdp)
    } else {
        None
    }) && (k + 1 == sent.len() ==> fed(view, sent.take(k)).after(sent[k].chunk, sent[k].sdp)
        == view) by {
        let some = order.take(k);
        let more = order.take(k + 1);
        assert(more.drop_last() =~= some);
        assert(sent.take(k) =~= reordered(chunks, some));
        lemma_fed(view, parts, id, some);
        lemma_arrived(parts, more);
        let before = fed(view, sent.take(k));
        let chunk = sent[k].chunk;
        assert(chunk.seq == order[k]);
        let now = before.gathered(chunk, sent[k].sdp);
        assert(now.parts =~= arrived(parts, more));
        if k + 1 == sent.len() {
            assert forall|seq: u32| now.parts.dom().contains(seq) implies seq < now.total by {
                assert(arrived(parts, more).contains_key(seq));
            }
            lemma_all_there(now.parts.dom(), now.total);
            let whole = Seq::new(now.total as nat, |i: int| now.parts[i as u32]);
            assert forall|i: int| 0 <= i < parts.len() implies whole[i] == parts[i] by {
                assert(arrived(parts, more).contains_key(i as u32));
            }
            assert(whole =~= parts);
            law_pieces_join(sdp, budget);
            assert(before.partials.remove(id) =~= view.partials);
        }
    }
    assert(sent.drop_last() =~= sent.take(sent.len() - 1));
    assert(sent[sent.len() - 1] == sent.last());
}

/// True when the chunks of one description stand at these places among others, first of all, in
/// this order, and no chunk elsewhere has its id.
pub open spec fn among(
    all: Seq<SdpChunkView>,
    chunks: Seq<SdpChunkView>,
    id: Seq<char>,
    order: Seq<int>,
    places: Seq<int>,
) -> bool {
    &&& places.len() == order.len()
    &&& places.len() > 0 ==> places[0] == 0
    &&& forall|j: int|
        0 <= j < places.len() ==> 0 <= (#[trigger] places[j]) < all.len() && all[places[j]]
            == chunks[order[j]]
    &&& forall|j: int, k: int|
        0 <= j < k < places.len() ==> (#[trigger] places[j]) < (#[trigger] places[k])
    &&& forall|i: int|
        0 <= i < all.len() && !places.contains(i) ==> (#[trigger] all[i]).chunk.id != id
}

/// What is held of one description, after this many of all chunks and this many of its own.
proof fn lemma_fed_among(
    view: ReassemblerView,
    parts: Seq<Seq<char>>,
    id: Seq<char>,
    order: Seq<int>,
    all: Seq<SdpChunkView>,
    places: Seq<int>,
    i: int,
    j: int,
)
    requires
        0 < parts.len() <= u32::MAX,
        parts.len() <= view.max_chunks,
        !view.partials.contains_key(id),
        view.partials.len() < view.max_concurrent,
        order.len() == parts.len(),
        order.no_duplicates(),
        forall|k: int| 0 <= k < order.len() ==> 0 <= #[trigger] order[k] < parts.len(),
        among(all, numbered(parts, id), id, order, places),
        0 <= i <= all.len(),
        0 <= j <= places.len(),
        forall|k: int| 0 <= k < j ==> #[trigger] places[k] < i,
        forall|k: int| j <= k < places.len() ==> #[trigger] places[k] >= i,
    ensures
        ({
            let held = fed(view, all.take(i));
            &&& held.max_chunks == view.max_chunks
            &&& held.max_concurrent == view.max_concurrent
            &&& i == 0 ==> held == view
            &&& j == 0 || j == parts.len() ==> !held.partials.contains_key(id)
            &&& 0 < j < parts.len() ==> held.partials.contains_key(id) && held.partials[id] == (
            PartialView { total: parts.len() as u32, parts: arrived(parts, order.take(j)) })
        }),
    decreases i,
{
    let chunks = numbered(parts, id);
    if i > 0 {
        assert(all.take(i).drop_last() =~= all.take(i - 1));
        let last = all[i - 1];
        assert(all.take(i).last() == last);
        if j > 0 && places[j - 1] == i - 1 {
            assert forall|k: int| 0 <= k < j - 1 implies #[trigger] places[k] < i - 1 by {
                assert(places[k] < places[j - 1]);
            }
            assert forall|k: int| j - 1 <= k < places.len() implies #[trigger] places[k] >= i
                - 1 by {}
            lemma_fed_among(view, parts, id, order, all, places, i - 1, j - 1);
            let before = fed(view, all.take(i - 1));
            let some = order.take(j - 1);
            let more = order.take(j);
            assert(more.drop_last() =~= some);
            assert(more.last() == order[j - 1]);
            lemma_arrived(parts, more);
            assert(last == chunks[order[j - 1]]);
            if j == 1 {
                assert(places[0] == 0);
                assert(arrived(parts, some) =~= Map::empty());
            }
            assert(before.gathered(last.chunk, last.sdp).parts =~= arrived(parts, more));
        } else {
            if places.contains(i - 1) {
                let k = places.index_of(i - 1);
                assert(places[k] == i - 1);
                if k < j {
                    if k < j - 1 {
                        assert(places[k] < places[j - 1]);
                    }
                } else {
                    assert(places[k] >= i);
                }
                assert(false);
            }
            assert(last.chunk.id != id);
            assert forall|k: int| 0 <= k < j implies #[trigger] places[k] < i - 1 by {
                if places[k] == i - 1 {
                    assert(places.contains(i - 1));
                }
            }
            lemma_fed_among(view, parts, id, order, all, places, i - 1, j);
        }
    } else {
        assert(all.take(0) =~= Seq::empty());
        if j > 0 {
            assert(places[0] < 0);
        }
    }
}

/// Descriptions come together beside each other: whatever chunks of others come in between, once
/// the first chunk of a description had room, its own give nothing until the last, which gives the
/// whole.
pub proof fn law_reassembled_beside_others(
    view: ReassemblerView,
    sdp: Seq<char>,
    id: Seq<char>,
    budget: nat,
    order: Seq<int>,
    all: Seq<SdpChunkView>,
    places: Seq<int>,
)
    requires
        split(sdp, id, budget) is Some,
        pieces(sdp, budget).len() <= u32::MAX,
        pieces(sdp, budget).len() <= view.max_chunks,
        !view.partials.contains_key(id),
        view.partials.len() < view.max_concurrent,
        order.len() == pieces(sdp, budget).len(),
        order.no_duplicates(),
        forall|k: int| 0 <= k < order.len() ==> 0 <= #[trigger] order[k] < order.len(),
        among(all, split(sdp, id, budget)->0, id, order, places),
    ensures
        forall|j: int|
            0 <= j < places.len() ==> fed(view, all.take(#[trigger] places[j])).yielded(
                all[places[j]].chunk,
                all[places[j]].sdp,
            ) == (if j + 1 == places.len() {
                Some(sdp)
            } else {
                None
            }),
        !fed(view, all).partials.contains_key(id),
{
    let parts = pieces(sdp, budget);
    let chunks = numbered(parts, id);
    assert(parts.len() > 0) by {
        lemma_fit(sdp, budget);
        assert(sdp.len() > 0);
    }
    assert forall|j: int| 0 <= j < places.len() implies fed(
        view,
        all.take(#[trigger] places[j]),
    ).yielded(all[places[j]].chunk, all[places[j]].sdp) == (if j + 1 == places.len() {
        Some(sdp)
    } else {
        None
    }) by {
        let at = places[j];
        assert forall|k: int| 0 <= k < j implies #[trigger] places[k] < at by {}
        assert forall|k: int| j <= k < places.len() implies #[trigger] places[k] >= at by {
            if k > j {
                assert(places[j] < places[k]);
            }
        }
        lemma_fed_among(view, parts, id, order, all, places, at, j);
        let before = fed(view, all.take(at));
        let some = order.take(j);
        let more = order.take(j + 1);
        assert(more.drop_last() =~= some);
        assert(more.last() == order[j]);
        lemma_arrived(parts, more);
        let one = all[at];
        assert(one == chunks[order[j]]);
        if j == 0 {
            assert(arrived(parts, some) =~= Map::empty());
        }
        let now = before.gathered(one.chunk, one.sdp);
        assert(now.parts =~= arrived(parts, more));
        if j + 1 == places.len() {
            assert forall|seq: u32| now.parts.dom().contains(seq) implies seq < now.total by {
                assert(arrived(parts, more).contains_key(seq));
            }
            lemma_all_there(now.parts.dom(), now.total);
            let whole = Seq::new(now.total as nat, |i: int| now.parts[i as u32]);
            assert forall|i: int| 0 <= i < parts.len() implies whole[i] == parts[i] by {
                assert(arrived(parts, more).contains_key(i as u32));
            }
            assert(whole =~= parts);
            law_pieces_join(sdp, budget);
        }
    }
    assert(all.take(all.len() as int) =~= all);
    lemma_fed_among(view, parts, id, order, all, places, all.len() as int, places.len() as int);
}

} // verus!

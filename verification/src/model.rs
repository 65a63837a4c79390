//! Everything the connection knows: who we are, the channels we are in and who is in them, the
//! private conversations, and the messages.

use vstd::prelude::*;

use crate::extensions::{LinkPreview, LinkPreviewView};
use crate::sorted::{
    enumerates, in_order, lemma_has_order, lemma_partly, partly, Ordered, SortKey, SortedMap,
    SortedSet,
};
use crate::text::{chars_of, contains_char, same, string_of};
use crate::wire::{prefix_rank, CaseFolded, Casemapping, Prefix};

verus! {

/// How many messages one channel or conversation keeps before the oldest are dropped.
pub const DEFAULT_RETENTION: usize = 5000;

/// Where a message is ordered: by its time, and then by the order of arrival.
#[derive(Debug, Clone, Copy, PartialEq, Eq, PartialOrd, Ord, Structural)]
pub struct MessageKey {
    /// Milliseconds since the epoch.
    pub time_ms: u64,
    /// Assigned in arrival order.
    pub seq: u64,
}

impl DeepView for MessageKey {
    type V = MessageKey;

    open spec fn deep_view(&self) -> MessageKey {
        *self
    }
}

impl Ordered for MessageKey {
    open spec fn precedes(self, other: Self) -> bool {
        self.time_ms < other.time_ms || (self.time_ms == other.time_ms && self.seq < other.seq)
    }

    proof fn irreflexive(a: Self) {
    }

    proof fn transitive(a: Self, b: Self, c: Self) {
    }

    proof fn connected(a: Self, b: Self) {
    }
}

impl SortKey for MessageKey {
    type Rank = MessageKey;

    open spec fn rank(&self) -> MessageKey {
        *self
    }

    fn before(&self, other: &Self) -> (r: bool) {
        assert(self.rank().precedes(other.rank()) == (*self).precedes(*other));
        self.time_ms < other.time_ms || (self.time_ms == other.time_ms && self.seq < other.seq)
    }

    fn is(&self, other: &Self) -> (r: bool) {
        *self == *other
    }

    fn copied(&self) -> (r: Self) {
        *self
    }
}

/// What kind of thing happened.
#[derive(Debug, Clone, PartialEq, Eq)]
#[non_exhaustive]
pub enum MessageKind {
    /// An ordinary message.
    Privmsg,
    /// A notice, which a client must not answer on its own.
    Notice,
    /// A CTCP, with the command that was requested.
    Ctcp {
        /// The CTCP command in upper case, such as `ACTION`.
        command: String,
    },
    /// A message without a body that only carries tags.
    Tagmsg,
    /// Someone joined.
    Join,
    /// Someone left the channel.
    Part,
    /// Someone left the network.
    Quit,
    /// Someone was removed by an operator.
    Kick {
        /// Who was removed.
        target: String,
    },
    /// Someone changed nick.
    Nick {
        /// What they changed it to.
        new_nick: String,
    },
    /// The topic changed.
    Topic,
    /// Modes changed.
    Mode,
}

/// What a message kind says.
pub enum MessageKindView {
    Privmsg,
    Notice,
    Ctcp { command: Seq<char> },
    Tagmsg,
    Join,
    Part,
    Quit,
    Kick { target: Seq<char> },
    Nick { new_nick: Seq<char> },
    Topic,
    Mode,
}

impl View for MessageKind {
    type V = MessageKindView;

    open spec fn view(&self) -> MessageKindView {
        match self {
            MessageKind::Privmsg => MessageKindView::Privmsg,
            MessageKind::Notice => MessageKindView::Notice,
            MessageKind::Ctcp { command } => MessageKindView::Ctcp { command: command@ },
            MessageKind::Tagmsg => MessageKindView::Tagmsg,
            MessageKind::Join => MessageKindView::Join,
            MessageKind::Part => MessageKindView::Part,
            MessageKind::Quit => MessageKindView::Quit,
            MessageKind::Kick { target } => MessageKindView::Kick { target: target@ },
            MessageKind::Nick { new_nick } => MessageKindView::Nick { new_nick: new_nick@ },
            MessageKind::Topic => MessageKindView::Topic,
            MessageKind::Mode => MessageKindView::Mode,
        }
    }
}

impl MessageKind {
    fn matches(&self, other: &Self) -> (r: bool)
        ensures
            r == (self@ == other@),
    {
        match (self, other) {
            (MessageKind::Privmsg, MessageKind::Privmsg) => true,
            (MessageKind::Notice, MessageKind::Notice) => true,
            (MessageKind::Ctcp { command: a }, MessageKind::Ctcp { command: b }) => same(a, b),
            (MessageKind::Tagmsg, MessageKind::Tagmsg) => true,
            (MessageKind::Join, MessageKind::Join) => true,
            (MessageKind::Part, MessageKind::Part) => true,
            (MessageKind::Quit, MessageKind::Quit) => true,
            (MessageKind::Kick { target: a }, MessageKind::Kick { target: b }) => same(a, b),
            (MessageKind::Nick { new_nick: a }, MessageKind::Nick { new_nick: b }) => same(a, b),
            (MessageKind::Topic, MessageKind::Topic) => true,
            (MessageKind::Mode, MessageKind::Mode) => true,
            _ => false,
        }
    }
}

/// One message, as the model holds it.
#[derive(Debug, Clone)]
pub struct Message {
    /// Where it sits in the log.
    pub key: MessageKey,
    /// The network-unique id, when the server assigned one.
    pub msgid: Option<String>,
    /// Who sent it, as they spell their own nick.
    pub sender: String,
    /// What kind of event it is.
    pub kind: MessageKind,
    /// The body, empty for events that have none.
    pub text: String,
    /// The account the sender was logged in as.
    pub account: Option<String>,
    /// True when this arrived inside a history batch rather than live.
    pub historical: bool,
    /// True when this is our own message.
    pub own: bool,
    /// The message this one replies to.
    pub reply_to: Option<String>,
    /// Reactions, keyed by the emoji, holding who reacted.
    pub reactions: SortedMap<String, Vec<String>>,
    /// A preview of the first link in this message, when the server built one.
    pub link_preview: Option<LinkPreview>,
    /// True once the message was redacted. What it said is kept.
    pub redacted: bool,
}

/// What a message says.
#[verifier::ext_equal]
pub struct MessageView {
    pub key: MessageKey,
    pub msgid: Option<Seq<char>>,
    pub sender: Seq<char>,
    pub kind: MessageKindView,
    pub text: Seq<char>,
    pub account: Option<Seq<char>>,
    pub historical: bool,
    pub own: bool,
    pub reply_to: Option<Seq<char>>,
    pub reactions: Map<Seq<char>, Seq<Seq<char>>>,
    pub link_preview: Option<LinkPreviewView>,
    pub redacted: bool,
}

impl View for Message {
    type V = MessageView;

    open spec fn view(&self) -> MessageView {
        MessageView {
            key: self.key,
            msgid: self.msgid.deep_view(),
            sender: self.sender@,
            kind: self.kind@,
            text: self.text@,
            account: self.account.deep_view(),
            historical: self.historical,
            own: self.own,
            reply_to: self.reply_to.deep_view(),
            reactions: self.reactions@,
            link_preview: self.link_preview.deep_view(),
            redacted: self.redacted,
        }
    }
}

impl DeepView for Message {
    type V = MessageView;

    open spec fn deep_view(&self) -> MessageView {
        self@
    }
}

impl MessageView {
    /// A message with only what every kind carries.
    pub open spec fn bare(
        key: MessageKey,
        sender: Seq<char>,
        kind: MessageKindView,
    ) -> MessageView {
        MessageView {
            key,
            msgid: None,
            sender,
            kind,
            text: Seq::empty(),
            account: None,
            historical: false,
            own: false,
            reply_to: None,
            reactions: Map::empty(),
            link_preview: None,
            redacted: false,
        }
    }
}

impl Message {
    /// A message with only what every kind carries.
    pub fn new(key: MessageKey, sender: String, kind: MessageKind) -> (r: Self)
        ensures
            r@ == MessageView::bare(key, sender@, kind@),
    {
        Message {
            key,
            msgid: None,
            sender,
            kind,
            text: String::new(),
            account: None,
            historical: false,
            own: false,
            reply_to: None,
            reactions: SortedMap::new(),
            link_preview: None,
            redacted: false,
        }
    }
}

/// The messages of one channel or conversation, ordered and bounded.
#[derive(Debug, Clone)]
pub struct Log {
    messages: SortedMap<MessageKey, Message>,
    by_msgid: SortedMap<String, MessageKey>,
    retention: usize,
}

/// What a log holds.
#[verifier::ext_equal]
pub struct LogView {
    pub messages: Map<MessageKey, MessageView>,
    pub by_msgid: Map<Seq<char>, MessageKey>,
    pub retention: nat,
}

impl View for Log {
    type V = LogView;

    closed spec fn view(&self) -> LogView {
        LogView {
            messages: self.messages@,
            by_msgid: self.by_msgid@,
            retention: self.retention as nat,
        }
    }
}

impl DeepView for Log {
    type V = LogView;

    open spec fn deep_view(&self) -> LogView {
        self@
    }
}

/// The larger of one and a retention limit: a log always keeps at least one message.
pub open spec fn kept_at_least_one(retention: nat) -> nat {
    if retention == 0 {
        1
    } else {
        retention
    }
}

impl LogView {
    /// A log with nothing in it.
    pub open spec fn fresh(retention: nat) -> LogView {
        LogView { messages: Map::empty(), by_msgid: Map::empty(), retention }
    }

    /// True when the log holds a message at the very same time from the same sender, with the same
    /// text and of the same kind.
    pub open spec fn has_twin(self, m: MessageView) -> bool {
        exists|k: MessageKey| #[trigger]
            self.messages.contains_key(k) && k.time_ms == m.key.time_ms && alike(
                self.messages[k],
                m,
            )
    }

    /// True when the log has this message already: by its id where it has one, and by a twin where
    /// it has none.
    pub open spec fn has(self, m: MessageView) -> bool {
        match m.msgid {
            Some(id) => self.by_msgid.contains_key(id),
            None => self.has_twin(m),
        }
    }

    /// The oldest message's place.
    pub open spec fn oldest(self) -> MessageKey {
        in_order(self.messages.dom())[0]
    }

    /// The log without its oldest message.
    pub open spec fn without_oldest(self) -> LogView {
        let dropped = self.messages[self.oldest()];
        LogView {
            messages: self.messages.remove(self.oldest()),
            by_msgid: match dropped.msgid {
                Some(id) => self.by_msgid.remove(id),
                None => self.by_msgid,
            },
            retention: self.retention,
        }
    }

    /// The log without its oldest messages, as far as it holds more than it keeps.
    pub open spec fn trimmed(self) -> LogView
        decreases self.messages.len(),
    {
        if self.messages.dom().finite() && self.messages.len() > self.retention
            && self.messages.contains_key(self.oldest()) {
            self.without_oldest().trimmed()
        } else {
            self
        }
    }

    /// The log with this message put in, before trimming.
    pub open spec fn with(self, m: MessageView) -> LogView {
        LogView {
            messages: self.messages.insert(m.key, m),
            by_msgid: match m.msgid {
                Some(id) => self.by_msgid.insert(id, m.key),
                None => self.by_msgid,
            },
            retention: self.retention,
        }
    }

    /// The log after this message was offered: unchanged where it is there already.
    pub open spec fn inserted(self, m: MessageView) -> LogView {
        if self.has(m) {
            self
        } else {
            self.with(m).trimmed()
        }
    }

    /// The message with this id.
    pub open spec fn get(self, msgid: Seq<char>) -> Option<MessageView> {
        if self.by_msgid.contains_key(msgid) && self.messages.contains_key(self.by_msgid[msgid]) {
            Some(self.messages[self.by_msgid[msgid]])
        } else {
            None
        }
    }

    /// The log with another message in the place of the one with this id.
    pub open spec fn with_changed(self, msgid: Seq<char>, m: MessageView) -> LogView {
        LogView { messages: self.messages.insert(self.by_msgid[msgid], m), ..self }
    }

    /// True when every message stands in its own place, and the ids lead to the messages that have
    /// them and to no others.
    pub open spec fn consistent(self) -> bool {
        &&& self.messages.dom().finite()
        &&& forall|k: MessageKey| #[trigger]
            self.messages.contains_key(k) ==> self.messages[k].key == k
        &&& forall|k: MessageKey| #[trigger]
            self.messages.contains_key(k) && self.messages[k].msgid is Some
                ==> self.by_msgid.contains_key(self.messages[k].msgid->0)
                && self.by_msgid[self.messages[k].msgid->0] == k
        &&& forall|id: Seq<char>| #[trigger]
            self.by_msgid.contains_key(id) ==> self.messages.contains_key(self.by_msgid[id])
                && self.messages[self.by_msgid[id]].msgid == Some(id)
    }

    /// Every message, oldest first.
    pub open spec fn in_time(self) -> Seq<MessageView> {
        in_order(self.messages.dom()).map_values(|k: MessageKey| self.messages[k])
    }

    /// Every network id with the place it leads to, in order.
    pub open spec fn ids(self) -> Seq<(Seq<char>, MessageKey)> {
        in_order(self.by_msgid.dom()).map_values(|id: Seq<char>| (id, self.by_msgid[id]))
    }
}

/// True when two messages have the same sender, text and kind.
pub open spec fn alike(a: MessageView, b: MessageView) -> bool {
    a.sender == b.sender && a.text == b.text && a.kind == b.kind
}

impl Default for Log {
    fn default() -> (r: Self)
        ensures
            r@ == LogView::fresh(DEFAULT_RETENTION as nat),
    {
        Log::with_retention(DEFAULT_RETENTION)
    }
}

impl Log {
    /// An empty log holding at most this many messages, and at least one.
    pub fn with_retention(retention: usize) -> (r: Self)
        ensures
            r@ == LogView::fresh(kept_at_least_one(retention as nat)),
    {
        Log {
            messages: SortedMap::new(),
            by_msgid: SortedMap::new(),
            retention: if retention == 0 { 1 } else { retention },
        }
    }

    /// Insert a message unless we already have it. True when it was new.
    pub fn insert(&mut self, message: Message) -> (r: bool)
        ensures
            r == !old(self)@.has(message@),
            final(self)@ == old(self)@.inserted(message@),
            old(self)@.messages.dom().finite(),
    {
        proof {
            use_type_invariant(&self.messages);
            self.messages.lemma_finite();
        }
        if let Some(msgid) = &message.msgid {
            if self.by_msgid.contains_key(msgid) {
                return false;
            }
        } else if self.has_twin(&message) {
            return false;
        }
        if let Some(msgid) = &message.msgid {
            let _ = self.by_msgid.insert(msgid.clone(), message.key);
        }
        let _ = self.messages.insert(message.key, message);
        self.trim();
        true
    }

    fn has_twin(&self, candidate: &Message) -> (r: bool)
        ensures
            r == self@.has_twin(candidate@),
    {
        let n: usize = self.messages.len();
        let mut i: usize = 0;
        let ghost order = in_order(self.messages@.dom());
        while i < n
            invariant
                i <= n == self.messages@.len() == order.len(),
                order == in_order(self.messages@.dom()),
                forall|j: int|
                    0 <= j < i ==> !((#[trigger] order[j]).time_ms == candidate.key.time_ms
                        && alike(self.messages@[order[j]], candidate@)),
            decreases n - i,
        {
            let at = *self.messages.key_at(i);
            let held = self.messages.value_at(i);
            if at.time_ms == candidate.key.time_ms && same(&held.sender, &candidate.sender)
                && same(&held.text, &candidate.text) && held.kind.matches(&candidate.kind) {
                assert(self@.messages.contains_key(at));
                return true;
            }
            i = i + 1;
        }
        proof {
            if self@.has_twin(candidate@) {
                let k = choose|k: MessageKey| #[trigger]
                    self@.messages.contains_key(k) && k.time_ms == candidate.key.time_ms && alike(
                        self@.messages[k],
                        candidate@,
                    );
                assert(order.contains(k));
            }
        }
        false
    }
}

impl Log {
    fn trim(&mut self)
        ensures
            final(self)@ == old(self)@.trimmed(),
    {
        let ghost start = self@;
        while self.messages.len() > self.retention
            invariant
                self@.trimmed() == start.trimmed(),
                self.retention as nat == self@.retention,
            decreases self.messages@.len(),
        {
            let ghost before = self@;
            let n: usize = self.messages.len();
            let oldest = *self.messages.key_at(0);
            assert(before.oldest() == oldest);
            if let Some(dropped) = self.messages.remove(&oldest) {
                if let Some(msgid) = &dropped.msgid {
                    let _ = self.by_msgid.remove(msgid);
                }
            }
            assert(self@ == before.without_oldest());
            assert(before.trimmed() == before.without_oldest().trimmed());
        }
        proof {
            assert(self@.messages == self.messages@);
            assert(self@.trimmed() == self@);
        }
    }

    /// True when a message with this id is already held.
    pub fn contains(&self, msgid: &str) -> (r: bool)
        ensures
            r == self@.by_msgid.contains_key(msgid@),
    {
        self.by_msgid.contains_key(&msgid.to_owned())
    }

    /// Look one up by its network id.
    pub fn get(&self, msgid: &str) -> (r: Option<&Message>)
        ensures
            r.deep_view() == self@.get(msgid@),
    {
        match self.by_msgid.get(&msgid.to_owned()) {
            Some(key) => self.messages.get(key),
            None => None,
        }
    }

    /// Look one up by where it sits.
    pub fn get_by_key(&self, key: &MessageKey) -> (r: Option<&Message>)
        ensures
            r.deep_view() == (if self@.messages.contains_key(*key) {
                Some(self@.messages[*key])
            } else {
                None
            }),
    {
        self.messages.get(key)
    }

    /// Borrow one mutably by its network id, to attach a reaction or mark it redacted.
    pub fn get_mut(&mut self, msgid: &str) -> (r: Option<&mut Message>)
        ensures
            match r {
                Some(m) => {
                    &&& old(self)@.get(msgid@) == Some(m@)
                    &&& final(self)@ == old(self)@.with_changed(msgid@, final(m)@)
                },
                None => old(self)@.get(msgid@) is None && final(self)@ == old(self)@,
            },
    {
        let key = match self.by_msgid.get(&msgid.to_owned()) {
            Some(key) => *key,
            None => return None,
        };
        self.messages.get_mut(&key)
    }

    /// Every message, oldest first.
    pub fn iter(&self) -> (r: Vec<&Message>)
        ensures
            r.deep_view() == self@.in_time(),
    {
        let mut out: Vec<&Message> = Vec::new();
        let n: usize = self.messages.len();
        let mut i: usize = 0;
        let ghost all = self@.in_time();
        while i < n
            invariant
                i <= n == self.messages@.len() == all.len(),
                all == self@.in_time(),
                in_order(self.messages@.dom()).len() == n,
                out.deep_view() == all.take(i as int),
            decreases n - i,
        {
            let ghost had = out.deep_view();
            let m = self.messages.value_at(i);
            out.push(m);
            assert(out.deep_view() =~= had.push(m@));
            i = i + 1;
            assert(out.deep_view() =~= all.take(i as int));
        }
        assert(all.take(n as int) =~= all);
        out
    }

    /// The most recent message.
    pub fn last(&self) -> (r: Option<&Message>)
        ensures
            r.deep_view() == (if self@.in_time().len() > 0 {
                Some(self@.in_time().last())
            } else {
                None
            }),
    {
        let n: usize = self.messages.len();
        if n > 0 {
            Some(self.messages.value_at(n - 1))
        } else {
            None
        }
    }

    /// The oldest message held, which is where a history request should resume from.
    pub fn first(&self) -> (r: Option<&Message>)
        ensures
            r.deep_view() == (if self@.in_time().len() > 0 {
                Some(self@.in_time()[0])
            } else {
                None
            }),
    {
        let n: usize = self.messages.len();
        if n > 0 {
            Some(self.messages.value_at(0))
        } else {
            None
        }
    }

    /// How many are held.
    pub fn len(&self) -> (r: usize)
        ensures
            r == self@.in_time().len(),
            r == self@.messages.len(),
    {
        self.messages.len()
    }

    /// True when nothing is held.
    pub fn is_empty(&self) -> (r: bool)
        ensures
            r == (self@.in_time().len() == 0),
    {
        self.messages.len() == 0
    }

    /// How many messages it keeps at most.
    pub fn retention(&self) -> (r: usize)
        ensures
            r == self@.retention,
    {
        self.retention
    }

    /// Every network id with the place it leads to, in order.
    pub fn ids(&self) -> (r: Vec<(&String, &MessageKey)>)
        ensures
            r.deep_view() == self@.ids(),
    {
        let r = self.by_msgid.iter();
        assert(r.deep_view() =~= self@.ids());
        r
    }

    /// The log of these messages, each in its own place, where the ids lead to these places. Of two
    /// messages with one place, or two places of one id, the later in the list counts.
    pub fn from_lists(
        messages: Vec<Message>,
        ids: Vec<(String, MessageKey)>,
        retention: usize,
    ) -> (r: Self)
        ensures
            r@ == (LogView {
                messages: by_place(messages.deep_view()),
                by_msgid: by_id(ids.deep_view()),
                retention: retention as nat,
            }),
    {
        let mut r = Log { messages: SortedMap::new(), by_msgid: SortedMap::new(), retention };
        let ghost all = messages.deep_view();
        let mut rest = messages;
        assert(by_place(all) =~= by_place(rest.deep_view()).union_prefer_right(r.messages@));
        while rest.len() > 0
            invariant
                by_place(all) == by_place(rest.deep_view()).union_prefer_right(r.messages@),
                r.by_msgid@ == Map::<Seq<char>, MessageKey>::empty(),
                r.retention == retention,
            decreases rest@.len(),
        {
            let ghost had = rest.deep_view();
            let ghost held = r.messages@;
            if let Some(message) = rest.pop() {
                assert(rest.deep_view() =~= had.drop_last());
                assert(message@ == had.last());
                if !r.messages.contains_key(&message.key) {
                    let _ = r.messages.insert(message.key, message);
                }
            }
            assert(by_place(had).union_prefer_right(held) =~= by_place(
                rest.deep_view(),
            ).union_prefer_right(r.messages@));
        }
        assert(r.messages@ =~= by_place(all));
        let ghost all = ids.deep_view();
        let mut rest = ids;
        let ghost messages = r.messages@;
        assert(by_id(all) =~= by_id(rest.deep_view()).union_prefer_right(r.by_msgid@));
        while rest.len() > 0
            invariant
                by_id(all) == by_id(rest.deep_view()).union_prefer_right(r.by_msgid@),
                r.messages@ == messages,
                r.retention == retention,
            decreases rest@.len(),
        {
            let ghost had = rest.deep_view();
            let ghost held = r.by_msgid@;
            if let Some((id, key)) = rest.pop() {
                assert(rest.deep_view() =~= had.drop_last());
                assert((id@, key) == had.last());
                if !r.by_msgid.contains_key(&id) {
                    let _ = r.by_msgid.insert(id, key);
                }
            }
            assert(by_id(had).union_prefer_right(held) =~= by_id(
                rest.deep_view(),
            ).union_prefer_right(r.by_msgid@));
        }
        assert(r.by_msgid@ =~= by_id(all));
        r
    }
}

/// Messages by their places. Of two with one place the later counts.
pub open spec fn by_place(messages: Seq<MessageView>) -> Map<MessageKey, MessageView>
    decreases messages.len(),
{
    if messages.len() == 0 {
        Map::empty()
    } else {
        by_place(messages.drop_last()).insert(messages.last().key, messages.last())
    }
}

/// Places by the ids that lead to them. Of two of one id the later counts.
pub open spec fn by_id(ids: Seq<(Seq<char>, MessageKey)>) -> Map<Seq<char>, MessageKey>
    decreases ids.len(),
{
    if ids.len() == 0 {
        Map::empty()
    } else {
        by_id(ids.drop_last()).insert(ids.last().0, ids.last().1)
    }
}

/// What one member holds in one channel.
#[derive(Debug, Clone, PartialEq, Eq)]
pub struct Membership {
    /// The prefix characters they hold here, highest rank first.
    pub prefixes: String,
}

/// What a membership says.
#[verifier::ext_equal]
pub struct MembershipView {
    pub prefixes: Seq<char>,
}

impl View for Membership {
    type V = MembershipView;

    open spec fn view(&self) -> MembershipView {
        MembershipView { prefixes: self.prefixes@ }
    }
}

impl DeepView for Membership {
    type V = MembershipView;

    open spec fn deep_view(&self) -> MembershipView {
        self@
    }
}

impl Default for Membership {
    fn default() -> (r: Self)
        ensures
            r@ == no_prefixes(),
    {
        Membership { prefixes: String::new() }
    }
}

/// A member without any prefix.
pub open spec fn no_prefixes() -> MembershipView {
    MembershipView { prefixes: Seq::empty() }
}

/// True when `a` ranks below `b`. A character that is no prefix ranks below all that are.
pub open spec fn ranks_below(order: Seq<(char, char)>, a: char, b: char) -> bool {
    match (prefix_rank(order, a), prefix_rank(order, b)) {
        (Some(x), Some(y)) => x > y,
        (None, Some(_)) => true,
        _ => false,
    }
}

/// `s` with `c` put before the first character that ranks below it, and at the end where none does.
pub open spec fn placed(order: Seq<(char, char)>, s: Seq<char>, c: char) -> Seq<char>
    decreases s.len(),
{
    if s.len() == 0 {
        seq![c]
    } else if ranks_below(order, s[0], c) {
        seq![c] + s
    } else {
        seq![s[0]] + placed(order, s.drop_first(), c)
    }
}

/// The characters of `s` from the highest rank to the lowest, those of one rank as they stood.
pub open spec fn ranked(order: Seq<(char, char)>, s: Seq<char>) -> Seq<char>
    decreases s.len(),
{
    if s.len() == 0 {
        Seq::empty()
    } else {
        placed(order, ranked(order, s.drop_last()), s.last())
    }
}

/// The prefixes of a member once they were granted one.
pub open spec fn granted(order: Seq<(char, char)>, prefixes: Seq<char>, c: char) -> Seq<char> {
    if prefixes.contains(c) {
        prefixes
    } else {
        ranked(order, prefixes.push(c))
    }
}

/// The prefixes of a member once one was taken from them.
pub open spec fn revoked(prefixes: Seq<char>, c: char) -> Seq<char> {
    prefixes.filter(other_than(c))
}

/// True of every character but one.
pub open spec fn other_than(c: char) -> spec_fn(char) -> bool {
    |x: char| x != c
}

fn is_ranked_below(order: &Prefix, a: char, b: char) -> (r: bool)
    ensures
        r == ranks_below(order@, a, b),
{
    match (order.rank(a), order.rank(b)) {
        (Some(x), Some(y)) => x > y,
        (None, Some(_)) => true,
        _ => false,
    }
}

fn place(order: &Prefix, chars: &mut Vec<char>, c: char)
    ensures
        final(chars)@ == placed(order@, old(chars)@, c),
{
    let ghost all = chars@;
    let ghost o = order@;
    let mut i: usize = 0;
    assert(all.skip(0) =~= all);
    assert(all.take(0) + placed(o, all, c) =~= placed(o, all, c));
    while i < chars.len() && !is_ranked_below(order, chars[i], c)
        invariant
            i <= chars@.len(),
            chars@ == all,
            o == order@,
            all.take(i as int) + placed(o, all.skip(i as int), c) == placed(o, all, c),
        decreases chars@.len() - i,
    {
        proof {
            let rest = all.skip(i as int);
            assert(rest[0] == all[i as int]);
            assert(rest.drop_first() =~= all.skip(i + 1));
            assert(all.take(i as int) + placed(o, rest, c) =~= all.take(i + 1) + placed(
                o,
                all.skip(i + 1),
                c,
            ));
        }
        i = i + 1;
    }
    proof {
        let rest = all.skip(i as int);
        if i < all.len() {
            assert(rest[0] == all[i as int]);
        }
        assert(placed(o, rest, c) =~= seq![c] + rest);
        assert(all.insert(i as int, c) =~= all.take(i as int) + (seq![c] + rest));
    }
    chars.insert(i, c);
}

/// The characters that are not `c`, in order.
pub fn remove_char(s: &str, c: char) -> (r: String)
    ensures
        r@ == revoked(s@, c),
{
    let chars = chars_of(s);
    let mut out: Vec<char> = Vec::new();
    let ghost keep = other_than(c);
    let mut i: usize = 0;
    assert(out@ =~= chars@.take(0).filter(keep)) by {
        reveal(Seq::filter);
    }
    while i < chars.len()
        invariant
            i <= chars@.len(),
            keep == other_than(c),
            out@ == chars@.take(i as int).filter(keep),
        decreases chars@.len() - i,
    {
        proof {
            reveal(Seq::filter);
            assert(chars@.take(i + 1).drop_last() =~= chars@.take(i as int));
        }
        if chars[i] != c {
            out.push(chars[i]);
        }
        i = i + 1;
    }
    assert(chars@.take(chars@.len() as int) =~= chars@);
    string_of(&out)
}

impl Membership {
    /// The highest prefix they hold, which is what a compact member list shows.
    pub fn top_prefix(&self) -> (r: Option<char>)
        ensures
            r == (if self@.prefixes.len() > 0 {
                Some(self@.prefixes[0])
            } else {
                None::<char>
            }),
    {
        crate::text::first_char(&self.prefixes)
    }

    /// Add a prefix, keeping the list in the server's rank order.
    pub fn grant(&mut self, prefix: char, order: &Prefix)
        ensures
            final(self)@.prefixes == granted(order@, old(self)@.prefixes, prefix),
    {
        if contains_char(&self.prefixes, prefix) {
            return;
        }
        let mut chars = chars_of(&self.prefixes);
        chars.push(prefix);
        let ghost all = chars@;
        let mut sorted: Vec<char> = Vec::new();
        let mut i: usize = 0;
        while i < chars.len()
            invariant
                i <= chars@.len(),
                chars@ == all,
                sorted@ == ranked(order@, all.take(i as int)),
            decreases chars@.len() - i,
        {
            assert(all.take(i + 1).drop_last() =~= all.take(i as int));
            place(order, &mut sorted, chars[i]);
            i = i + 1;
        }
        assert(all.take(all.len() as int) =~= all);
        self.prefixes = string_of(&sorted);
    }

    /// Remove a prefix.
    pub fn revoke(&mut self, prefix: char)
        ensures
            final(self)@.prefixes == revoked(old(self)@.prefixes, prefix),
    {
        self.prefixes = remove_char(&self.prefixes, prefix);
    }
}

/// Someone we know about, held once however many channels we share.
#[derive(Debug, Clone)]
pub struct Person {
    /// Their nick, as they spell it.
    pub nick: String,
    /// The account they are logged in as.
    pub account: Option<String>,
    /// Their away message, when they are away.
    pub away: Option<String>,
    /// True when the server marks them as a bot.
    pub bot: bool,
    /// Their username, from WHO or a hostmask.
    pub username: Option<String>,
    /// Their host, from WHO or a hostmask.
    pub host: Option<String>,
    /// Their realname, from WHO.
    pub realname: Option<String>,
    /// True when the server marks them as an operator.
    pub operator: bool,
    /// Metadata the server holds.
    pub metadata: SortedMap<String, String>,
}

/// What is known of a person.
#[verifier::ext_equal]
pub struct PersonView {
    pub nick: Seq<char>,
    pub account: Option<Seq<char>>,
    pub away: Option<Seq<char>>,
    pub bot: bool,
    pub username: Option<Seq<char>>,
    pub host: Option<Seq<char>>,
    pub realname: Option<Seq<char>>,
    pub operator: bool,
    pub metadata: Map<Seq<char>, Seq<char>>,
}

impl View for Person {
    type V = PersonView;

    open spec fn view(&self) -> PersonView {
        PersonView {
            nick: self.nick@,
            account: self.account.deep_view(),
            away: self.away.deep_view(),
            bot: self.bot,
            username: self.username.deep_view(),
            host: self.host.deep_view(),
            realname: self.realname.deep_view(),
            operator: self.operator,
            metadata: self.metadata@,
        }
    }
}

impl DeepView for Person {
    type V = PersonView;

    open spec fn deep_view(&self) -> PersonView {
        self@
    }
}

impl PersonView {
    /// Someone of whom only the nick is known.
    pub open spec fn named(nick: Seq<char>) -> PersonView {
        PersonView {
            nick,
            account: None,
            away: None,
            bot: false,
            username: None,
            host: None,
            realname: None,
            operator: false,
            metadata: Map::empty(),
        }
    }
}

impl Person {
    /// Someone of whom only the nick is known.
    pub fn named(nick: &str) -> (r: Self)
        ensures
            r@ == PersonView::named(nick@),
    {
        Person {
            nick: nick.to_owned(),
            account: None,
            away: None,
            bot: false,
            username: None,
            host: None,
            realname: None,
            operator: false,
            metadata: SortedMap::new(),
        }
    }
}

impl Default for Person {
    fn default() -> (r: Self)
        ensures
            r@ == PersonView::named(Seq::empty()),
    {
        Person {
            nick: String::new(),
            account: None,
            away: None,
            bot: false,
            username: None,
            host: None,
            realname: None,
            operator: false,
            metadata: SortedMap::new(),
        }
    }
}

/// A channel we are in.
#[derive(Debug, Clone)]
pub struct Channel {
    /// The name as the server spells it.
    pub name: String,
    /// The topic, when one is set.
    pub topic: Option<String>,
    /// Who set the topic.
    pub topic_by: Option<String>,
    /// Channel modes currently set, with their arguments.
    pub modes: SortedMap<char, Option<String>>,
    /// Who is in it.
    pub members: SortedMap<CaseFolded, Membership>,
    /// What was said.
    pub log: Log,
    /// Messages since the last read marker.
    pub unread: u32,
    /// Unread messages that mention us.
    pub mentions: u32,
    /// Metadata the server holds.
    pub metadata: SortedMap<String, String>,
    /// The read marker timestamp the server last confirmed.
    pub read_marker: Option<String>,
    /// Who is composing a message here right now.
    pub typing: SortedSet<CaseFolded>,
    /// Modes by their name rather than their letter.
    pub named_modes: SortedMap<String, Option<String>>,
}

/// What is known of a channel.
#[verifier::ext_equal]
pub struct ChannelView {
    pub name: Seq<char>,
    pub topic: Option<Seq<char>>,
    pub topic_by: Option<Seq<char>>,
    pub modes: Map<char, Option<Seq<char>>>,
    pub members: Map<Seq<char>, MembershipView>,
    pub log: LogView,
    pub unread: u32,
    pub mentions: u32,
    pub metadata: Map<Seq<char>, Seq<char>>,
    pub read_marker: Option<Seq<char>>,
    pub typing: Set<Seq<char>>,
    pub named_modes: Map<Seq<char>, Option<Seq<char>>>,
}

impl View for Channel {
    type V = ChannelView;

    open spec fn view(&self) -> ChannelView {
        ChannelView {
            name: self.name@,
            topic: self.topic.deep_view(),
            topic_by: self.topic_by.deep_view(),
            modes: self.modes@,
            members: self.members@,
            log: self.log@,
            unread: self.unread,
            mentions: self.mentions,
            metadata: self.metadata@,
            read_marker: self.read_marker.deep_view(),
            typing: self.typing@,
            named_modes: self.named_modes@,
        }
    }
}

impl DeepView for Channel {
    type V = ChannelView;

    open spec fn deep_view(&self) -> ChannelView {
        self@
    }
}

impl ChannelView {
    /// A channel of which only the name is known.
    pub open spec fn fresh(name: Seq<char>, retention: nat) -> ChannelView {
        ChannelView {
            name,
            topic: None,
            topic_by: None,
            modes: Map::empty(),
            members: Map::empty(),
            log: LogView::fresh(retention),
            unread: 0,
            mentions: 0,
            metadata: Map::empty(),
            read_marker: None,
            typing: Set::empty(),
            named_modes: Map::empty(),
        }
    }
}

impl Channel {
    fn fresh(name: &str, retention: usize) -> (r: Self)
        ensures
            r@ == ChannelView::fresh(name@, kept_at_least_one(retention as nat)),
    {
        Channel {
            name: name.to_owned(),
            topic: None,
            topic_by: None,
            modes: SortedMap::new(),
            members: SortedMap::new(),
            log: Log::with_retention(retention),
            unread: 0,
            mentions: 0,
            metadata: SortedMap::new(),
            read_marker: None,
            typing: SortedSet::new(),
            named_modes: SortedMap::new(),
        }
    }
}

/// A private conversation with one other person.
#[derive(Debug, Clone)]
pub struct Conversation {
    /// Their nick, as they spell it.
    pub nick: String,
    /// What was said.
    pub log: Log,
    /// Messages since the last read marker.
    pub unread: u32,
    /// The read marker timestamp the server last confirmed.
    pub read_marker: Option<String>,
    /// Who is composing a message here right now.
    pub typing: SortedSet<CaseFolded>,
}

/// What is known of a conversation.
#[verifier::ext_equal]
pub struct ConversationView {
    pub nick: Seq<char>,
    pub log: LogView,
    pub unread: u32,
    pub read_marker: Option<Seq<char>>,
    pub typing: Set<Seq<char>>,
}

impl View for Conversation {
    type V = ConversationView;

    open spec fn view(&self) -> ConversationView {
        ConversationView {
            nick: self.nick@,
            log: self.log@,
            unread: self.unread,
            read_marker: self.read_marker.deep_view(),
            typing: self.typing@,
        }
    }
}

impl DeepView for Conversation {
    type V = ConversationView;

    open spec fn deep_view(&self) -> ConversationView {
        self@
    }
}

impl ConversationView {
    /// A conversation in which nothing was said.
    pub open spec fn fresh(nick: Seq<char>, retention: nat) -> ConversationView {
        ConversationView {
            nick,
            log: LogView::fresh(retention),
            unread: 0,
            read_marker: None,
            typing: Set::empty(),
        }
    }
}

impl Conversation {
    fn fresh(nick: &str, retention: usize) -> (r: Self)
        ensures
            r@ == ConversationView::fresh(nick@, kept_at_least_one(retention as nat)),
    {
        Conversation {
            nick: nick.to_owned(),
            log: Log::with_retention(retention),
            unread: 0,
            read_marker: None,
            typing: SortedSet::new(),
        }
    }
}

/// Who we are on this connection.
#[derive(Debug, Clone)]
pub struct Me {
    /// Our current nick.
    pub nick: String,
    /// The account we authenticated as.
    pub account: Option<String>,
    /// Our user modes.
    pub modes: String,
    /// Metadata the server holds.
    pub metadata: SortedMap<String, String>,
    /// Our away message, when we are away.
    pub away: Option<String>,
}

/// What is known of us.
#[verifier::ext_equal]
pub struct MeView {
    pub nick: Seq<char>,
    pub account: Option<Seq<char>>,
    pub modes: Seq<char>,
    pub metadata: Map<Seq<char>, Seq<char>>,
    pub away: Option<Seq<char>>,
}

impl View for Me {
    type V = MeView;

    open spec fn view(&self) -> MeView {
        MeView {
            nick: self.nick@,
            account: self.account.deep_view(),
            modes: self.modes@,
            metadata: self.metadata@,
            away: self.away.deep_view(),
        }
    }
}

impl MeView {
    /// Nothing known of us yet.
    pub open spec fn nobody() -> MeView {
        MeView {
            nick: Seq::empty(),
            account: None,
            modes: Seq::empty(),
            metadata: Map::empty(),
            away: None,
        }
    }
}

impl Default for Me {
    fn default() -> (r: Self)
        ensures
            r@ == MeView::nobody(),
    {
        Me {
            nick: String::new(),
            account: None,
            modes: String::new(),
            metadata: SortedMap::new(),
            away: None,
        }
    }
}

/// Everything the connection knows.
#[derive(Debug, Clone)]
pub struct Model {
    /// Who we are.
    pub me: Me,
    pub(crate) channels: SortedMap<CaseFolded, Channel>,
    pub(crate) conversations: SortedMap<CaseFolded, Conversation>,
    pub(crate) people: SortedMap<CaseFolded, Person>,
    pub(crate) retention: usize,
    pub(crate) next_seq: u64,
}

/// What the connection knows.
#[verifier::ext_equal]
pub struct ModelView {
    pub me: MeView,
    pub channels: Map<Seq<char>, ChannelView>,
    pub conversations: Map<Seq<char>, ConversationView>,
    pub people: Map<Seq<char>, PersonView>,
    pub retention: nat,
    pub next_seq: u64,
}

impl View for Model {
    type V = ModelView;

    closed spec fn view(&self) -> ModelView {
        ModelView {
            me: self.me@,
            channels: self.channels@,
            conversations: self.conversations@,
            people: self.people@,
            retention: kept_at_least_one(self.retention as nat),
            next_seq: self.next_seq,
        }
    }
}

impl Model {
    /// However many channels there are, they are finitely many.
    pub(crate) proof fn lemma_finite(&self)
        requires
            self.channels.well_formed(),
        ensures
            self@.channels.dom().finite(),
    {
        self.channels.lemma_finite();
    }
}

/// What stands under `from` moved to `to`.
pub open spec fn moved<V>(m: Map<Seq<char>, V>, from: Seq<char>, to: Seq<char>) -> Map<
    Seq<char>,
    V,
> {
    if m.contains_key(from) {
        m.remove(from).insert(to, m[from])
    } else {
        m
    }
}

/// A channel once the member under `from` is under `to`.
pub open spec fn member_moved(from: Seq<char>, to: Seq<char>) -> spec_fn(
    ChannelView,
) -> ChannelView {
    |c: ChannelView| ChannelView { members: moved(c.members, from, to), ..c }
}

/// A channel without this member.
pub open spec fn member_gone(who: Seq<char>) -> spec_fn(ChannelView) -> ChannelView {
    |c: ChannelView| ChannelView { members: c.members.remove(who), ..c }
}

/// A channel without any member.
pub open spec fn members_gone() -> spec_fn(ChannelView) -> ChannelView {
    |c: ChannelView| ChannelView { members: Map::empty(), ..c }
}

/// Who is composing, once someone started or stopped.
pub open spec fn typing_set(set: Set<Seq<char>>, who: Seq<char>, typing: bool) -> Set<Seq<char>> {
    if typing {
        set.insert(who)
    } else {
        set.remove(who)
    }
}

impl ModelView {
    /// A model that knows nothing.
    pub open spec fn fresh(retention: nat) -> ModelView {
        ModelView {
            me: MeView::nobody(),
            channels: Map::empty(),
            conversations: Map::empty(),
            people: Map::empty(),
            retention,
            next_seq: 0,
        }
    }

    /// The channel under a key, or a fresh one.
    pub open spec fn channel_or_fresh(self, key: Seq<char>, name: Seq<char>) -> ChannelView {
        if self.channels.contains_key(key) {
            self.channels[key]
        } else {
            ChannelView::fresh(name, self.retention)
        }
    }

    /// The model with this channel under a key.
    pub open spec fn with_channel(self, key: Seq<char>, c: ChannelView) -> ModelView {
        ModelView { channels: self.channels.insert(key, c), ..self }
    }

    /// The conversation under a key, or a fresh one.
    pub open spec fn conversation_or_fresh(
        self,
        key: Seq<char>,
        nick: Seq<char>,
    ) -> ConversationView {
        if self.conversations.contains_key(key) {
            self.conversations[key]
        } else {
            ConversationView::fresh(nick, self.retention)
        }
    }

    /// The model with this conversation under a key.
    pub open spec fn with_conversation(self, key: Seq<char>, c: ConversationView) -> ModelView {
        ModelView { conversations: self.conversations.insert(key, c), ..self }
    }

    /// The person under a key, or one of whom only the nick is known.
    pub open spec fn person_or_named(self, key: Seq<char>, nick: Seq<char>) -> PersonView {
        if self.people.contains_key(key) {
            self.people[key]
        } else {
            PersonView::named(nick)
        }
    }

    /// The model with this person under a key.
    pub open spec fn with_person(self, key: Seq<char>, p: PersonView) -> ModelView {
        ModelView { people: self.people.insert(key, p), ..self }
    }

    /// The log of the channel under a key, or else of the conversation under it.
    pub open spec fn log_at(self, key: Seq<char>) -> Option<LogView> {
        if self.channels.contains_key(key) {
            Some(self.channels[key].log)
        } else if self.conversations.contains_key(key) {
            Some(self.conversations[key].log)
        } else {
            None
        }
    }

    /// The message with an id in the channel or the conversation under a key.
    pub open spec fn message_at(self, key: Seq<char>, msgid: Seq<char>) -> Option<MessageView> {
        match self.log_at(key) {
            Some(log) => log.get(msgid),
            None => None,
        }
    }

    /// The model with another message in the place of the one with this id.
    pub open spec fn with_message(
        self,
        key: Seq<char>,
        msgid: Seq<char>,
        m: MessageView,
    ) -> ModelView {
        if self.channels.contains_key(key) {
            let c = self.channels[key];
            self.with_channel(key, ChannelView { log: c.log.with_changed(msgid, m), ..c })
        } else {
            let c = self.conversations[key];
            self.with_conversation(key, ConversationView { log: c.log.with_changed(msgid, m), ..c })
        }
    }

    /// True when someone's composing a message somewhere, or not, is news: there is such a place,
    /// and it did not stand so already.
    pub open spec fn typing_is_news(self, target: Seq<char>, who: Seq<char>, typing: bool) -> bool {
        if self.channels.contains_key(target) {
            self.channels[target].typing.contains(who) != typing
        } else {
            self.conversations.contains_key(target) && self.conversations[target].typing.contains(
                who,
            ) != typing
        }
    }

    /// The model once someone started or stopped composing a message somewhere.
    pub open spec fn with_typing(self, target: Seq<char>, who: Seq<char>, typing: bool) -> ModelView {
        if self.channels.contains_key(target) {
            let c = self.channels[target];
            self.with_channel(
                target,
                ChannelView { typing: typing_set(c.typing, who, typing), ..c },
            )
        } else if self.conversations.contains_key(target) {
            let c = self.conversations[target];
            self.with_conversation(
                target,
                ConversationView { typing: typing_set(c.typing, who, typing), ..c },
            )
        } else {
            self
        }
    }

    /// The model once someone is called `to` in every place where they were called `from`.
    pub open spec fn renamed(
        self,
        casemapping: Casemapping,
        from: Seq<char>,
        to: Seq<char>,
    ) -> ModelView {
        let (a, b) = (casemapping.folded(from), casemapping.folded(to));
        ModelView {
            me: if casemapping.folded(self.me.nick) == a {
                MeView { nick: to, ..self.me }
            } else {
                self.me
            },
            channels: self.channels.map_values(member_moved(a, b)),
            conversations: if self.conversations.contains_key(a) {
                self.conversations.remove(a).insert(
                    b,
                    ConversationView { nick: to, ..self.conversations[a] },
                )
            } else {
                self.conversations
            },
            people: if self.people.contains_key(a) {
                self.people.remove(a).insert(b, PersonView { nick: to, ..self.people[a] })
            } else {
                self.people
            },
            ..self
        }
    }

    /// True for someone we share a channel or a conversation with, and for ourselves.
    pub open spec fn is_known(self, key: Seq<char>) -> bool {
        ||| self.conversations.contains_key(key)
        ||| self.is_member_somewhere(key)
        ||| self.people[key].nick == self.me.nick
    }

    /// True for a member of any channel.
    pub open spec fn is_member_somewhere(self, key: Seq<char>) -> bool {
        exists|c: Seq<char>| #[trigger]
            self.channels.contains_key(c) && self.channels[c].members.contains_key(key)
    }

    /// The model without anyone we no longer share anything with.
    pub open spec fn without_strangers(self) -> ModelView {
        ModelView { people: self.people.filter_keys(|k: Seq<char>| self.is_known(k)), ..self }
    }

    /// The channels that someone is in, in key order.
    pub open spec fn channels_of(self, who: Seq<char>) -> Seq<Seq<char>> {
        in_order(self.channels.dom()).filter(
            |k: Seq<char>| self.channels[k].members.contains_key(who),
        )
    }

    /// The model with someone in no channel.
    pub open spec fn without_member(self, who: Seq<char>) -> ModelView {
        ModelView { channels: self.channels.map_values(member_gone(who)), ..self }
    }

    /// The model with nobody in any channel.
    pub open spec fn without_members(self) -> ModelView {
        ModelView { channels: self.channels.map_values(members_gone()), ..self }
    }
}

impl Default for Model {
    fn default() -> (r: Self)
        ensures
            r@ == ModelView::fresh(DEFAULT_RETENTION as nat),
    {
        Model::with_retention(DEFAULT_RETENTION)
    }
}

impl Model {
    /// An empty model with this retention limit for each target.
    pub fn with_retention(retention: usize) -> (r: Self)
        ensures
            r@ == ModelView::fresh(kept_at_least_one(retention as nat)),
    {
        Model {
            me: Me::default(),
            channels: SortedMap::new(),
            conversations: SortedMap::new(),
            people: SortedMap::new(),
            retention: if retention == 0 { 1 } else { retention },
            next_seq: 0,
        }
    }

    /// Who we are.
    pub fn me(&self) -> (r: &Me)
        ensures
            r@ == self@.me,
    {
        &self.me
    }

    /// Who we are, for changing it.
    pub fn me_mut(&mut self) -> (r: &mut Me)
        ensures
            r@ == old(self)@.me,
            final(self)@ == (ModelView { me: final(r)@, ..old(self)@ }),
    {
        &mut self.me
    }

    /// The next sequence number, which breaks timestamp ties in arrival order.
    pub fn next_key(&mut self, time_ms: u64) -> (r: MessageKey)
        ensures
            r == (MessageKey { time_ms, seq: old(self)@.next_seq }),
            final(self)@ == (ModelView {
                next_seq: next_seq(old(self)@.next_seq),
                ..old(self)@
            }),
    {
        let seq: u64 = self.next_seq;
        self.next_seq = self.next_seq.wrapping_add(1);
        MessageKey { time_ms, seq }
    }

    /// A channel by its folded name.
    pub fn channel(&self, key: &CaseFolded) -> (r: Option<&Channel>)
        ensures
            r.deep_view() == self@.channels.get(key@),
    {
        self.channels.get(key)
    }

    /// A channel, created if we have not seen it.
    pub fn channel_mut(&mut self, key: CaseFolded, name: &str) -> (r: &mut Channel)
        ensures
            r@ == old(self)@.channel_or_fresh(key@, name@),
            final(self)@ == old(self)@.with_channel(key@, final(r)@),
    {
        let retention: usize = self.retention;
        self.channels.get_or_insert(key, Channel::fresh(name, retention))
    }

    /// One of the channels, by its place in folded name order, for changing what is in it.
    pub fn channels_mut(&mut self, i: usize) -> (r: &mut Channel)
        requires
            i < old(self)@.channels.len(),
        ensures
            old(self)@.channels.contains_key(in_order(old(self)@.channels.dom())[i as int]),
            r@ == old(self)@.channels[in_order(old(self)@.channels.dom())[i as int]],
            final(self)@ == old(self)@.with_channel(
                in_order(old(self)@.channels.dom())[i as int],
                final(r)@,
            ),
    {
        self.channels.value_at_mut(i)
    }

    /// A channel we already know, for changing what is in it.
    pub fn existing_channel_mut(&mut self, key: &CaseFolded) -> (r: Option<&mut Channel>)
        ensures
            match r {
                Some(c) => {
                    &&& old(self)@.channels.contains_key(key@)
                    &&& c@ == old(self)@.channels[key@]
                    &&& final(self)@ == old(self)@.with_channel(key@, final(c)@)
                },
                None => !old(self)@.channels.contains_key(key@) && final(self)@ == old(self)@,
            },
    {
        self.channels.get_mut(key)
    }

    /// Forget a channel, which is what leaving one means.
    pub fn remove_channel(&mut self, key: &CaseFolded) -> (r: Option<Channel>)
        ensures
            r.deep_view() == old(self)@.channels.get(key@),
            final(self)@ == (ModelView {
                channels: old(self)@.channels.remove(key@),
                ..old(self)@
            }),
    {
        self.channels.remove(key)
    }

    /// Every channel with its folded name, in folded name order.
    pub fn channels(&self) -> (r: Vec<(&CaseFolded, &Channel)>)
        ensures
            r.deep_view() == in_order(self@.channels.dom()).map_values(
                |k: Seq<char>| (k, self@.channels[k]),
            ),
            enumerates(in_order(self@.channels.dom()), self@.channels.dom()),
    {
        let _ = self.channels.len();
        let r = self.channels.iter();
        assert(r.deep_view() =~= in_order(self@.channels.dom()).map_values(
            |k: Seq<char>| (k, self@.channels[k]),
        ));
        r
    }

    /// How many channels there are.
    pub fn channel_count(&self) -> (r: usize)
        ensures
            r == self@.channels.len(),
            r == in_order(self@.channels.dom()).len(),
            enumerates(in_order(self@.channels.dom()), self@.channels.dom()),
    {
        self.channels.len()
    }

    /// A private conversation.
    pub fn conversation(&self, key: &CaseFolded) -> (r: Option<&Conversation>)
        ensures
            r.deep_view() == self@.conversations.get(key@),
    {
        self.conversations.get(key)
    }

    /// A private conversation, created if we have not seen it.
    pub fn conversation_mut(&mut self, key: CaseFolded, nick: &str) -> (r: &mut Conversation)
        ensures
            r@ == old(self)@.conversation_or_fresh(key@, nick@),
            final(self)@ == old(self)@.with_conversation(key@, final(r)@),
    {
        let retention: usize = self.retention;
        self.conversations.get_or_insert(key, Conversation::fresh(nick, retention))
    }

    /// Record that someone started or stopped composing a message somewhere. True when that is
    /// news.
    pub fn set_typing(&mut self, target: &CaseFolded, who: CaseFolded, typing: bool) -> (r: bool)
        ensures
            r == old(self)@.typing_is_news(target@, who@, typing),
            final(self)@ == old(self)@.with_typing(target@, who@, typing),
    {
        if self.channels.contains_key(target) {
            match self.channels.get_mut(target) {
                Some(channel) => if typing {
                    channel.typing.insert(who)
                } else {
                    channel.typing.remove(&who)
                },
                None => false,
            }
        } else {
            match self.conversations.get_mut(target) {
                Some(conversation) => if typing {
                    conversation.typing.insert(who)
                } else {
                    conversation.typing.remove(&who)
                },
                None => false,
            }
        }
    }

    /// Someone we know about.
    pub fn person(&self, key: &CaseFolded) -> (r: Option<&Person>)
        ensures
            r.deep_view() == self@.people.get(key@),
    {
        self.people.get(key)
    }

    /// Someone we know about, remembered from now on if we did not already.
    pub fn person_mut(&mut self, key: CaseFolded, nick: &str) -> (r: &mut Person)
        ensures
            r@ == old(self)@.person_or_named(key@, nick@),
            final(self)@ == old(self)@.with_person(key@, final(r)@),
    {
        self.people.get_or_insert(key, Person::named(nick))
    }

    /// Someone we already know, for changing what we hold about them.
    pub fn existing_person_mut(&mut self, key: &CaseFolded) -> (r: Option<&mut Person>)
        ensures
            match r {
                Some(p) => {
                    &&& old(self)@.people.contains_key(key@)
                    &&& p@ == old(self)@.people[key@]
                    &&& final(self)@ == old(self)@.with_person(key@, final(p)@)
                },
                None => !old(self)@.people.contains_key(key@) && final(self)@ == old(self)@,
            },
    {
        self.people.get_mut(key)
    }

    /// A private conversation we already know, for changing what is in it.
    pub fn existing_conversation_mut(&mut self, key: &CaseFolded) -> (r: Option<&mut Conversation>)
        ensures
            match r {
                Some(c) => {
                    &&& old(self)@.conversations.contains_key(key@)
                    &&& c@ == old(self)@.conversations[key@]
                    &&& final(self)@ == old(self)@.with_conversation(key@, final(c)@)
                },
                None => !old(self)@.conversations.contains_key(key@) && final(self)@ == old(self)@,
            },
    {
        self.conversations.get_mut(key)
    }

    /// Every private conversation with its key, in key order.
    pub fn conversations(&self) -> (r: Vec<(&CaseFolded, &Conversation)>)
        ensures
            r.deep_view() == in_order(self@.conversations.dom()).map_values(
                |k: Seq<char>| (k, self@.conversations[k]),
            ),
    {
        let r = self.conversations.iter();
        assert(r.deep_view() =~= in_order(self@.conversations.dom()).map_values(
            |k: Seq<char>| (k, self@.conversations[k]),
        ));
        r
    }

    /// Everyone we know of with their key, in key order.
    pub fn people(&self) -> (r: Vec<(&CaseFolded, &Person)>)
        ensures
            r.deep_view() == in_order(self@.people.dom()).map_values(
                |k: Seq<char>| (k, self@.people[k]),
            ),
    {
        let r = self.people.iter();
        assert(r.deep_view() =~= in_order(self@.people.dom()).map_values(
            |k: Seq<char>| (k, self@.people[k]),
        ));
        r
    }

    /// How many messages each channel and conversation keeps at most.
    pub fn retention(&self) -> (r: usize)
        ensures
            r == self@.retention,
    {
        if self.retention == 0 {
            1
        } else {
            self.retention
        }
    }

    /// The sequence number that the next message gets.
    pub fn next_seq(&self) -> (r: u64)
        ensures
            r == self@.next_seq,
    {
        self.next_seq
    }
}

/// The sequence number after this one. After the last comes zero.
pub open spec fn next_seq(seq: u64) -> u64 {
    if seq == u64::MAX {
        0
    } else {
        (seq + 1) as u64
    }
}

impl Model {
    /// Rename someone everywhere they appear, which is what a NICK means.
    pub fn rename(&mut self, casemapping: Casemapping, from: &str, to: &str)
        ensures
            final(self)@ == old(self)@.renamed(casemapping, from@, to@),
    {
        let a = casemapping.fold(from);
        let b = casemapping.fold(to);
        self.move_member(&a, &b);
        if let Some(mut conversation) = self.conversations.remove(&a) {
            conversation.nick = to.to_owned();
            let _ = self.conversations.insert(b.clone(), conversation);
        } else {
            assert(self.conversations@ =~= old(self).conversations@);
        }
        if let Some(mut person) = self.people.remove(&a) {
            person.nick = to.to_owned();
            let _ = self.people.insert(b, person);
        } else {
            assert(self.people@ =~= old(self).people@);
        }
        if casemapping.matches(&self.me.nick, from) {
            self.me.nick = to.to_owned();
        }
    }

    /// In every channel, put the member under `a` under `b`.
    fn move_member(&mut self, a: &CaseFolded, b: &CaseFolded)
        ensures
            final(self)@ == (ModelView {
                channels: old(self)@.channels.map_values(member_moved(a@, b@)),
                ..old(self)@
            }),
    {
        let ghost start = self@;
        let ghost f = member_moved(a@, b@);
        let n: usize = self.channels.len();
        let ghost order = in_order(start.channels.dom());
        let mut i: usize = 0;
        proof {
            lemma_partly(start.channels, f, 0);
        }
        while i < n
            invariant
                i <= n == order.len() == start.channels.len(),
                order == in_order(start.channels.dom()),
                enumerates(order, start.channels.dom()),
                f == member_moved(a@, b@),
                self@ == (ModelView {
                    channels: partly(start.channels, order.take(i as int), f),
                    ..start
                }),
            decreases n - i,
        {
            proof {
                lemma_partly(start.channels, f, i as int);
            }
            let channel = self.channels.value_at_mut(i);
            if let Some(membership) = channel.members.remove(a) {
                let _ = channel.members.insert(b.clone(), membership);
            } else {
                assert(channel.members@ =~= start.channels[order[i as int]].members);
            }
            assert(channel@ == f(start.channels[order[i as int]]));
            i = i + 1;
        }
        proof {
            lemma_partly(start.channels, f, n as int);
        }
    }

    /// Forget who is in any channel.
    pub fn clear_members(&mut self)
        ensures
            final(self)@ == old(self)@.without_members(),
    {
        let ghost start = self@;
        let ghost f = members_gone();
        let n: usize = self.channels.len();
        let ghost order = in_order(start.channels.dom());
        let mut i: usize = 0;
        proof {
            lemma_partly(start.channels, f, 0);
        }
        while i < n
            invariant
                i <= n == order.len() == start.channels.len(),
                order == in_order(start.channels.dom()),
                enumerates(order, start.channels.dom()),
                f == members_gone(),
                self@ == (ModelView {
                    channels: partly(start.channels, order.take(i as int), f),
                    ..start
                }),
            decreases n - i,
        {
            proof {
                lemma_partly(start.channels, f, i as int);
            }
            let channel = self.channels.value_at_mut(i);
            channel.members.clear();
            assert(channel@ == f(start.channels[order[i as int]]));
            i = i + 1;
        }
        proof {
            lemma_partly(start.channels, f, n as int);
        }
    }

    fn is_member_somewhere(&self, key: &CaseFolded) -> (r: bool)
        ensures
            r == self@.is_member_somewhere(key@),
    {
        let n: usize = self.channels.len();
        let ghost order = in_order(self@.channels.dom());
        let mut i: usize = 0;
        while i < n
            invariant
                i <= n == order.len() == self.channels@.len(),
                order == in_order(self.channels@.dom()),
                forall|j: int|
                    0 <= j < i ==> !(#[trigger] self.channels@[order[j]]).members.contains_key(
                        key@,
                    ),
            decreases n - i,
        {
            let channel = self.channels.value_at(i);
            if channel.members.contains_key(key) {
                assert(self@.channels.contains_key(order[i as int]));
                return true;
            }
            i = i + 1;
        }
        proof {
            if self@.is_member_somewhere(key@) {
                let c = choose|c: Seq<char>| #[trigger]
                    self@.channels.contains_key(c) && self@.channels[c].members.contains_key(key@);
                assert(order.contains(c));
                assert(self.channels@[order[order.index_of(c)]] == self@.channels[c]);
            }
        }
        false
    }

    /// Forget anyone we no longer share a channel or a conversation with.
    pub fn forget_strangers(&mut self)
        ensures
            final(self)@ == old(self)@.without_strangers(),
    {
        let ghost start = self@;
        let n: usize = self.people.len();
        let ghost order = in_order(start.people.dom());
        let mut strangers: Vec<CaseFolded> = Vec::new();
        let mut i: usize = 0;
        while i < n
            invariant
                i <= n == order.len() == self.people@.len(),
                order == in_order(self.people@.dom()),
                self@ == start,
                self.people@ == start.people,
                forall|j: int|
                    0 <= j < strangers@.len() ==> {
                        &&& start.people.contains_key((#[trigger] strangers@[j])@)
                        &&& !start.is_known(strangers@[j]@)
                    },
                forall|j: int|
                    0 <= j < i ==> start.is_known(#[trigger] order[j]) || strangers.deep_view().contains(
                        order[j],
                    ),
            decreases n - i,
        {
            let ghost had = strangers.deep_view();
            let key = self.people.key_at(i);
            let person = self.people.value_at(i);
            if !self.conversations.contains_key(key) && !self.is_member_somewhere(key) && !same(
                &person.nick,
                &self.me.nick,
            ) {
                let stranger = key.clone();
                strangers.push(stranger);
                assert(strangers.deep_view() =~= had.push(order[i as int]));
                assert(strangers.deep_view().last() == order[i as int]);
                assert forall|j: int|
                    0 <= j < i + 1 implies start.is_known(#[trigger] order[j])
                    || strangers.deep_view().contains(order[j]) by {
                    if j < i && had.contains(order[j]) {
                        assert(strangers.deep_view()[had.index_of(order[j])] == order[j]);
                    }
                }
            }
            i = i + 1;
        }
        let mut j: usize = 0;
        let ghost gone = strangers.deep_view();
        assert(self.people@ =~= start.people.remove_keys(gone.take(0).to_set()));
        while j < strangers.len()
            invariant
                j <= strangers@.len(),
                gone == strangers.deep_view(),
                self@ == (ModelView { people: self.people@, ..start }),
                self.people@ == start.people.remove_keys(gone.take(j as int).to_set()),
            decreases strangers@.len() - j,
        {
            let ghost was = self.people@;
            let _ = self.people.remove(&strangers[j]);
            proof {
                let next = gone.take(j + 1);
                assert(next =~= gone.take(j as int).push(strangers@[j as int]@));
                assert forall|k: Seq<char>| next.contains(k) == (gone.take(j as int).contains(k)
                    || k == strangers@[j as int]@) by {
                    if gone.take(j as int).contains(k) {
                        assert(next[gone.take(j as int).index_of(k)] == k);
                    }
                    assert(next[j as int] == strangers@[j as int]@);
                    if next.contains(k) && k != strangers@[j as int]@ {
                        assert(gone.take(j as int)[next.index_of(k)] == k);
                    }
                }
                assert(self.people@ =~= start.people.remove_keys(next.to_set()));
            }
            j = j + 1;
        }
        proof {
            assert(gone.take(gone.len() as int) =~= gone);
            let kept = start.people.filter_keys(|k: Seq<char>| start.is_known(k));
            assert forall|k: Seq<char>| start.people.contains_key(k) implies (gone.contains(k)
                == !start.is_known(k)) by {
                assert(order.contains(k));
                let n = order.index_of(k);
                assert(order[n] == k);
                if gone.contains(k) {
                    let m = gone.index_of(k);
                    assert(strangers@[m]@ == k);
                }
            }
            assert(self.people@ =~= kept);
        }
    }

    /// Remove someone from every channel, which is what a QUIT means. Returns where they were.
    pub fn remove_everywhere(&mut self, who: &CaseFolded) -> (r: Vec<CaseFolded>)
        ensures
            r.deep_view() == old(self)@.channels_of(who@),
            final(self)@ == old(self)@.without_member(who@),
            enumerates(in_order(old(self)@.channels.dom()), old(self)@.channels.dom()),
    {
        let ghost start = self@;
        let ghost f = member_gone(who@);
        let ghost is_in = |k: Seq<char>| start.channels[k].members.contains_key(who@);
        let n: usize = self.channels.len();
        let ghost order = in_order(start.channels.dom());
        let mut left: Vec<CaseFolded> = Vec::new();
        let mut i: usize = 0;
        proof {
            lemma_partly(start.channels, f, 0);
            reveal(Seq::filter);
            assert(left.deep_view() =~= order.take(0).filter(is_in));
        }
        while i < n
            invariant
                i <= n == order.len() == start.channels.len(),
                order == in_order(start.channels.dom()),
                enumerates(order, start.channels.dom()),
                f == member_gone(who@),
                is_in == |k: Seq<char>| start.channels[k].members.contains_key(who@),
                left.deep_view() == order.take(i as int).filter(is_in),
                self@ == (ModelView {
                    channels: partly(start.channels, order.take(i as int), f),
                    ..start
                }),
            decreases n - i,
        {
            let ghost had = left.deep_view();
            proof {
                lemma_partly(start.channels, f, i as int);
                reveal(Seq::filter);
                assert(order.take(i + 1).drop_last() =~= order.take(i as int));
            }
            let key = self.channels.key_at(i).clone();
            let channel = self.channels.value_at_mut(i);
            let removed = channel.members.remove(who);
            assert(channel@ == f(start.channels[order[i as int]]));
            if removed.is_some() {
                left.push(key);
                assert(left.deep_view() =~= had.push(order[i as int]));
            }
            i = i + 1;
        }
        proof {
            lemma_partly(start.channels, f, n as int);
            assert(order.take(n as int) =~= order);
        }
        left
    }
}

impl Model {
    /// The message with an id in the channel under a key, or else in the conversation under it, for
    /// changing it.
    pub fn message_mut(&mut self, key: &CaseFolded, msgid: &str) -> (r: Option<&mut Message>)
        ensures
            match r {
                Some(m) => {
                    &&& old(self)@.message_at(key@, msgid@) == Some(m@)
                    &&& final(self)@ == old(self)@.with_message(key@, msgid@, final(m)@)
                },
                None => {
                    &&& old(self)@.message_at(key@, msgid@) is None
                    &&& final(self)@ == old(self)@
                },
            },
    {
        if self.channels.contains_key(key) {
            match self.channels.get_mut(key) {
                Some(channel) => {
                    let r = channel.log.get_mut(msgid);
                    proof {
                        let m = old(self)@.channels;
                        assert(m.insert(key@, m[key@]) =~= m);
                    }
                    r
                },
                None => None,
            }
        } else {
            match self.conversations.get_mut(key) {
                Some(conversation) => {
                    let r = conversation.log.get_mut(msgid);
                    proof {
                        let m = old(self)@.conversations;
                        assert(m.insert(key@, m[key@]) =~= m);
                    }
                    r
                },
                None => None,
            }
        }
    }
}

/// Where a log holds anything, its oldest message is one that it holds, and comes before the others.
proof fn lemma_oldest(log: LogView)
    requires
        log.messages.dom().finite(),
        log.messages.len() > 0,
    ensures
        log.messages.contains_key(log.oldest()),
        forall|k: MessageKey| #[trigger]
            log.messages.contains_key(k) && k != log.oldest() ==> log.oldest().precedes(k),
{
    let order = in_order(log.messages.dom());
    lemma_has_order(log.messages.dom());
    assert(order.contains(order[0]));
    assert forall|k: MessageKey| #[trigger]
        log.messages.contains_key(k) && k != log.oldest() implies log.oldest().precedes(k) by {
        assert(log.messages.dom().contains(k));
        let i = order.index_of(k);
        assert(order[0].precedes(order[i]));
    }
}

/// Trimming changes nothing that it leaves.
pub(crate) proof fn lemma_trimmed_is_part(log: LogView)
    ensures
        forall|k: MessageKey| #[trigger]
            log.trimmed().messages.contains_key(k) ==> log.messages.contains_key(k)
                && log.trimmed().messages[k] == log.messages[k],
    decreases log.messages.len(),
{
    if log.messages.dom().finite() && log.messages.len() > log.retention
        && log.messages.contains_key(log.oldest()) {
        let rest = log.without_oldest();
        lemma_trimmed_is_part(rest);
        assert(log.trimmed() == rest.trimmed());
    }
}

/// Trimming leaves no more than is kept, changes nothing that it leaves, and drops only what comes
/// before all of that.
proof fn lemma_trimmed(log: LogView)
    requires
        log.messages.dom().finite(),
    ensures
        log.trimmed().messages.dom().finite(),
        log.trimmed().messages.len() <= log.retention,
        log.messages.len() >= log.retention ==> log.trimmed().messages.len() == log.retention,
        log.messages.len() <= log.retention ==> log.trimmed() == log,
        log.trimmed().retention == log.retention,
        log.trimmed().messages.submap_of(log.messages),
        forall|gone: MessageKey, kept: MessageKey| #[trigger]
            log.messages.contains_key(gone) && !log.trimmed().messages.contains_key(gone)
                && #[trigger] log.trimmed().messages.contains_key(kept) ==> gone.precedes(kept),
        log.consistent() ==> log.trimmed().consistent(),
    decreases log.messages.len(),
{
    if log.messages.len() > log.retention {
        lemma_oldest(log);
        let rest = log.without_oldest();
        lemma_trimmed(rest);
        assert(log.trimmed() == rest.trimmed());
        assert forall|gone: MessageKey, kept: MessageKey| #[trigger]
            log.messages.contains_key(gone) && !log.trimmed().messages.contains_key(gone)
                && #[trigger] log.trimmed().messages.contains_key(kept) implies gone.precedes(
            kept,
        ) by {
            assert(rest.messages.contains_key(kept));
            assert(log.messages.contains_key(kept));
            if gone != log.oldest() {
                assert(rest.messages.contains_key(gone));
            }
        }
        if log.consistent() {
            assert forall|k: MessageKey| #[trigger]
                rest.messages.contains_key(k) && rest.messages[k].msgid is Some implies
                rest.by_msgid.contains_key(rest.messages[k].msgid->0)
                && rest.by_msgid[rest.messages[k].msgid->0] == k by {
                assert(log.messages.contains_key(k));
                assert(log.messages.contains_key(log.oldest()));
            }
            assert forall|id: Seq<char>| #[trigger]
                rest.by_msgid.contains_key(id) implies rest.messages.contains_key(
                rest.by_msgid[id],
            ) && rest.messages[rest.by_msgid[id]].msgid == Some(id) by {
                assert(log.by_msgid.contains_key(id));
            }
            assert(rest.consistent());
        }
    }
}

/// A log never holds more than it keeps.
pub proof fn law_log_stays_bounded(log: LogView, m: MessageView)
    requires
        log.messages.dom().finite(),
        log.messages.len() <= log.retention,
    ensures
        log.inserted(m).messages.dom().finite(),
        log.inserted(m).messages.len() <= log.inserted(m).retention,
        log.inserted(m).retention == log.retention,
{
    lemma_trimmed(log.with(m));
}

/// However messages come in, an id leads to the message that has it, and to no other.
pub proof fn law_log_stays_consistent(log: LogView, m: MessageView)
    requires
        log.consistent(),
        !log.messages.contains_key(m.key),
    ensures
        log.inserted(m).consistent(),
{
    if !log.has(m) {
        let with = log.with(m);
        assert forall|k: MessageKey| #[trigger]
            with.messages.contains_key(k) && with.messages[k].msgid is Some implies
            with.by_msgid.contains_key(with.messages[k].msgid->0)
            && with.by_msgid[with.messages[k].msgid->0] == k by {
            if k != m.key {
                assert(log.messages.contains_key(k));
            }
        }
        assert forall|id: Seq<char>| #[trigger]
            with.by_msgid.contains_key(id) implies with.messages.contains_key(with.by_msgid[id])
            && with.messages[with.by_msgid[id]].msgid == Some(id) by {
            if m.msgid != Some(id) {
                assert(log.by_msgid.contains_key(id));
            }
        }
        assert(with.consistent());
        lemma_trimmed(with);
    }
}

/// What a log drops to make room is older than all that it keeps, whether it was there before or is
/// the new message itself.
pub proof fn law_only_the_oldest_are_dropped(
    log: LogView,
    m: MessageView,
    gone: MessageKey,
    kept: MessageKey,
)
    requires
        log.messages.dom().finite(),
        log.messages.contains_key(gone) || (gone == m.key && !log.has(m)),
        !log.inserted(m).messages.contains_key(gone),
        log.inserted(m).messages.contains_key(kept),
    ensures
        gone.precedes(kept),
        log.inserted(m).messages.len() == log.retention,
{
    lemma_trimmed(log.with(m));
    if log.with(m).messages.len() < log.retention {
        assert(log.with(m).trimmed() == log.with(m));
    }
    assert(log.with(m).messages.contains_key(gone));
}

/// A new message that a log keeps is there to be read, and to be found by its id.
pub proof fn law_kept_message_is_found(log: LogView, m: MessageView)
    requires
        log.consistent(),
        !log.messages.contains_key(m.key),
        !log.has(m),
        log.inserted(m).messages.contains_key(m.key),
    ensures
        log.inserted(m).messages[m.key] == m,
        m.msgid is Some ==> log.inserted(m).get(m.msgid->0) == Some(m),
{
    law_log_stays_consistent(log, m);
    lemma_trimmed(log.with(m));
    assert(log.with(m).messages.contains_key(m.key));
}

/// A message that is offered twice, as an echo or a replay of history does, is held once.
pub proof fn law_offered_twice_is_held_once(log: LogView, m: MessageView)
    requires
        log.consistent(),
        log.messages.len() <= log.retention,
        !log.messages.contains_key(m.key),
    ensures
        log.inserted(m).inserted(m) == log.inserted(m),
{
    if !log.has(m) {
        let with = log.with(m);
        let after = log.inserted(m);
        lemma_trimmed(with);
        law_log_stays_consistent(log, m);
        if after.messages.contains_key(m.key) {
            law_kept_message_is_found(log, m);
            assert(after.has(m));
        } else {
            assert(with.messages.contains_key(m.key));
            assert(with.messages.len() == log.messages.len() + 1);
            lemma_oldest(with);
            reveal_with_fuel(LogView::trimmed, 2);
            let rest = with.without_oldest();
            assert(rest.messages.len() == log.messages.len());
            assert(after == rest);
            assert(with.oldest() == m.key);
            assert(rest.messages =~= log.messages);
            assert(rest.by_msgid =~= log.by_msgid);
            assert(rest == log);
        }
    }
}

/// A log reads in the order in which things happened, and in the order of arrival where two happened
/// at once.
pub proof fn law_log_reads_in_order(log: LogView, i: int, j: int)
    requires
        log.consistent(),
        0 <= i < j < log.in_time().len(),
    ensures
        log.in_time().len() == log.messages.len(),
        log.in_time()[i].key.precedes(log.in_time()[j].key),
{
    let order = in_order(log.messages.dom());
    lemma_has_order(log.messages.dom());
    assert(order.contains(order[i]) && order.contains(order[j]));
    assert(log.messages.contains_key(order[i]) && log.messages.contains_key(order[j]));
    assert(order[i].precedes(order[j]));
}

proof fn lemma_by_place(messages: Seq<MessageView>, k: MessageKey)
    requires
        forall|i: int, j: int|
            0 <= i < j < messages.len() ==> (#[trigger] messages[i]).key != (
            #[trigger] messages[j]).key,
    ensures
        by_place(messages).contains_key(k) <==> exists|i: int|
            0 <= i < messages.len() && (#[trigger] messages[i]).key == k,
        forall|i: int|
            0 <= i < messages.len() && (#[trigger] messages[i]).key == k ==> by_place(messages)[k]
                == messages[i],
    decreases messages.len(),
{
    if messages.len() > 0 {
        let rest = messages.drop_last();
        lemma_by_place(rest, k);
        if by_place(rest).contains_key(k) {
            let i = choose|i: int| 0 <= i < rest.len() && (#[trigger] rest[i]).key == k;
            assert(messages[i].key == k);
        }
        assert forall|i: int|
            0 <= i < messages.len() && (#[trigger] messages[i]).key == k implies by_place(
            messages,
        ).contains_key(k) && by_place(messages)[k] == messages[i] by {
            if i < rest.len() {
                assert(rest[i].key == k);
            }
        }
    }
}

proof fn lemma_by_id(ids: Seq<(Seq<char>, MessageKey)>, id: Seq<char>)
    requires
        forall|i: int, j: int|
            0 <= i < j < ids.len() ==> (#[trigger] ids[i]).0 != (#[trigger] ids[j]).0,
    ensures
        by_id(ids).contains_key(id) <==> exists|i: int|
            0 <= i < ids.len() && (#[trigger] ids[i]).0 == id,
        forall|i: int|
            0 <= i < ids.len() && (#[trigger] ids[i]).0 == id ==> by_id(ids)[id] == ids[i].1,
    decreases ids.len(),
{
    if ids.len() > 0 {
        let rest = ids.drop_last();
        lemma_by_id(rest, id);
        if by_id(rest).contains_key(id) {
            let i = choose|i: int| 0 <= i < rest.len() && (#[trigger] rest[i]).0 == id;
            assert(ids[i].0 == id);
        }
        assert forall|i: int|
            0 <= i < ids.len() && (#[trigger] ids[i]).0 == id implies by_id(ids).contains_key(id)
            && by_id(ids)[id] == ids[i].1 by {
            if i < rest.len() {
                assert(rest[i].0 == id);
            }
        }
    }
}

/// A log survives being written down as lists: its messages and its ids, in order, give it back.
pub proof fn law_log_is_given_back(log: LogView)
    requires
        log.consistent(),
        log.by_msgid.dom().finite(),
    ensures
        by_place(log.in_time()) == log.messages,
        by_id(log.ids()) == log.by_msgid,
{
    let order = in_order(log.messages.dom());
    let messages = log.in_time();
    lemma_has_order(log.messages.dom());
    assert forall|i: int| 0 <= i < order.len() implies log.messages.contains_key(
        #[trigger] order[i],
    ) && messages[i].key == order[i] by {
        assert(order.contains(order[i]));
    }
    assert forall|i: int, j: int| 0 <= i < j < messages.len() implies (#[trigger] messages[i]).key
        != (#[trigger] messages[j]).key by {
        assert(order[i].precedes(order[j]));
        MessageKey::irreflexive(order[i]);
    }
    assert forall|k: MessageKey| #[trigger]
        by_place(messages).contains_key(k) == log.messages.contains_key(k) && (
        log.messages.contains_key(k) ==> by_place(messages)[k] == log.messages[k]) by {
        lemma_by_place(messages, k);
        if log.messages.contains_key(k) {
            assert(order.contains(k));
            let i = order.index_of(k);
            assert(messages[i].key == k);
        }
        if by_place(messages).contains_key(k) {
            let i = choose|i: int| 0 <= i < messages.len() && (#[trigger] messages[i]).key == k;
            assert(log.messages.contains_key(order[i]));
        }
    }
    assert(by_place(messages) =~= log.messages);
    let names = in_order(log.by_msgid.dom());
    let ids = log.ids();
    lemma_has_order(log.by_msgid.dom());
    assert forall|i: int| 0 <= i < names.len() implies log.by_msgid.contains_key(
        #[trigger] names[i],
    ) && ids[i].0 == names[i] by {
        assert(names.contains(names[i]));
    }
    assert forall|i: int, j: int| 0 <= i < j < ids.len() implies (#[trigger] ids[i]).0 != (
    #[trigger] ids[j]).0 by {
        assert(names[i].precedes(names[j]));
        Ordered::irreflexive(names[i]);
    }
    assert forall|id: Seq<char>| #[trigger]
        by_id(ids).contains_key(id) == log.by_msgid.contains_key(id) && (log.by_msgid.contains_key(
            id,
        ) ==> by_id(ids)[id] == log.by_msgid[id]) by {
        lemma_by_id(ids, id);
        if log.by_msgid.contains_key(id) {
            assert(names.contains(id));
            let i = names.index_of(id);
            assert(ids[i].0 == id);
        }
        if by_id(ids).contains_key(id) {
            let i = choose|i: int| 0 <= i < ids.len() && (#[trigger] ids[i]).0 == id;
            assert(log.by_msgid.contains_key(names[i]));
        }
    }
    assert(by_id(ids) =~= log.by_msgid);
}

/// Messages that are numbered one after the other have different numbers, and the later one the
/// higher, until all numbers were given out.
pub proof fn law_sequence_numbers_rise(seq: u64)
    ensures
        next_seq(seq) != seq,
        seq < u64::MAX ==> next_seq(seq) > seq,
{
}

/// True when no prefix stands behind one that ranks below it.
pub open spec fn well_ranked(order: Seq<(char, char)>, s: Seq<char>) -> bool {
    forall|i: int, j: int|
        0 <= i < j < s.len() ==> !ranks_below(order, #[trigger] s[i], #[trigger] s[j])
}

/// Placing a prefix keeps the others, as they stood, and keeps the ranking.
proof fn lemma_placed(order: Seq<(char, char)>, s: Seq<char>, c: char)
    requires
        well_ranked(order, s),
    ensures
        well_ranked(order, placed(order, s, c)),
        placed(order, s, c).contains(c),
        forall|x: char| #[trigger] placed(order, s, c).contains(x) ==> x == c || s.contains(x),
        !s.contains(c) ==> revoked(placed(order, s, c), c) == s,
    decreases s.len(),
{
    let p = placed(order, s, c);
    if s.len() == 0 {
        assert(p =~= seq![c]);
        assert(p[0] == c);
        assert(p.drop_last() =~= s);
        reveal_with_fuel(Seq::filter, 2);
    } else if ranks_below(order, s[0], c) {
        assert(p =~= seq![c] + s);
        assert(p[0] == c);
        assert forall|i: int, j: int| 0 <= i < j < p.len() implies !ranks_below(
            order,
            #[trigger] p[i],
            #[trigger] p[j],
        ) by {
            assert(p[j] == s[j - 1]);
            if i > 0 {
                assert(p[i] == s[i - 1]);
            } else if j > 1 {
                assert(!ranks_below(order, s[0], s[j - 1]));
            }
        }
        lemma_revoked_first(s, c);
    } else {
        let rest = s.drop_first();
        assert forall|i: int, j: int| 0 <= i < j < rest.len() implies !ranks_below(
            order,
            #[trigger] rest[i],
            #[trigger] rest[j],
        ) by {
            assert(rest[i] == s[i + 1] && rest[j] == s[j + 1]);
        }
        lemma_placed(order, rest, c);
        let q = placed(order, rest, c);
        assert(p =~= seq![s[0]] + q);
        assert(p[1 + q.index_of(c)] == c);
        assert forall|x: char| #[trigger] p.contains(x) implies x == c || s.contains(x) by {
            let n = p.index_of(x);
            if n == 0 {
                assert(s[0] == x);
            } else {
                assert(q[n - 1] == x);
                assert(q.contains(x));
                if x != c {
                    assert(s[rest.index_of(x) + 1] == x);
                }
            }
        }
        assert forall|i: int, j: int| 0 <= i < j < p.len() implies !ranks_below(
            order,
            #[trigger] p[i],
            #[trigger] p[j],
        ) by {
            assert(p[j] == q[j - 1]);
            if i > 0 {
                assert(p[i] == q[i - 1]);
            } else {
                assert(q.contains(q[j - 1]));
                if q[j - 1] != c {
                    let n = rest.index_of(q[j - 1]);
                    assert(!ranks_below(order, s[0], s[n + 1]));
                }
            }
        }
        if !s.contains(c) {
            assert(s[0] != c);
            assert forall|x: char| #[trigger] rest.contains(x) implies s.contains(x) by {
                assert(s[rest.index_of(x) + 1] == x);
            }
            Seq::filter_distributes_over_add(seq![s[0]], q, other_than(c));
            assert(seq![s[0]].drop_last() =~= Seq::<char>::empty());
            reveal_with_fuel(Seq::filter, 2);
            assert(seq![s[0]].filter(other_than(c)) =~= seq![s[0]]);
            assert(revoked(p, c) =~= s);
        }
    }
}

/// Taking away the first prefix leaves the others.
proof fn lemma_revoked_first(s: Seq<char>, c: char)
    ensures
        !s.contains(c) ==> revoked(seq![c] + s, c) == s,
{
    if !s.contains(c) {
        Seq::filter_distributes_over_add(seq![c], s, other_than(c));
        assert(seq![c].drop_last() =~= Seq::<char>::empty());
        lemma_revoked_none(s, c);
        reveal_with_fuel(Seq::filter, 2);
        assert(seq![c].filter(other_than(c)) =~= Seq::<char>::empty());
        assert(revoked(seq![c] + s, c) =~= s);
    }
}

/// Taking away what is not there changes nothing.
proof fn lemma_revoked_none(s: Seq<char>, c: char)
    requires
        !s.contains(c),
    ensures
        revoked(s, c) == s,
    decreases s.len(),
{
    reveal(Seq::filter);
    if s.len() > 0 {
        let rest = s.drop_last();
        if rest.contains(c) {
            assert(s[rest.index_of(c)] == c);
        }
        lemma_revoked_none(rest, c);
        assert(s.contains(s.last()));
        assert(rest.push(s.last()) =~= s);
    }
}

/// Ranking what is ranked changes nothing.
proof fn lemma_ranked_is_ranked(order: Seq<(char, char)>, s: Seq<char>)
    requires
        well_ranked(order, s),
    ensures
        ranked(order, s) == s,
    decreases s.len(),
{
    if s.len() > 0 {
        let rest = s.drop_last();
        lemma_ranked_is_ranked(order, rest);
        lemma_placed_last(order, rest, s.last());
        assert(rest.push(s.last()) =~= s);
    }
}

/// What ranks above none of the others goes behind them.
proof fn lemma_placed_last(order: Seq<(char, char)>, s: Seq<char>, c: char)
    requires
        forall|i: int| 0 <= i < s.len() ==> !ranks_below(order, #[trigger] s[i], c),
    ensures
        placed(order, s, c) == s.push(c),
    decreases s.len(),
{
    if s.len() == 0 {
        assert(s.push(c) =~= seq![c]);
    } else {
        let rest = s.drop_first();
        assert forall|i: int| 0 <= i < rest.len() implies !ranks_below(
            order,
            #[trigger] rest[i],
            c,
        ) by {
            assert(rest[i] == s[i + 1]);
        }
        lemma_placed_last(order, rest, c);
        assert(seq![s[0]] + rest.push(c) =~= s.push(c));
    }
}

/// The prefixes of a member stand in the server's order, whatever the order they were granted in.
/// Granting one twice counts once, and one that is granted and taken away leaves the others as they
/// were.
pub proof fn law_prefixes_stay_ranked(order: Seq<(char, char)>, prefixes: Seq<char>, c: char)
    requires
        well_ranked(order, prefixes),
    ensures
        well_ranked(order, granted(order, prefixes, c)),
        granted(order, granted(order, prefixes, c), c) == granted(order, prefixes, c),
        !prefixes.contains(c) ==> revoked(granted(order, prefixes, c), c) == prefixes,
{
    if !prefixes.contains(c) {
        lemma_ranked_is_ranked(order, prefixes);
        assert(prefixes.push(c).drop_last() =~= prefixes);
        lemma_placed(order, prefixes, c);
    }
}

/// Someone who is renamed is found under the new name, with all that was known of them, and
/// nowhere under the old one.
pub proof fn law_rename_leaves_no_twin(
    m: ModelView,
    casemapping: Casemapping,
    from: Seq<char>,
    to: Seq<char>,
    channel: Seq<char>,
)
    requires
        casemapping.folded(from) != casemapping.folded(to),
    ensures
        ({
            let (a, b) = (casemapping.folded(from), casemapping.folded(to));
            let after = m.renamed(casemapping, from, to);
            &&& !after.people.contains_key(a)
            &&& !after.conversations.contains_key(a)
            &&& m.people.contains_key(a) ==> after.people.contains_key(b) && after.people[b] == (
            PersonView { nick: to, ..m.people[a] })
            &&& m.conversations.contains_key(a) ==> after.conversations.contains_key(b)
                && after.conversations[b] == (ConversationView { nick: to, ..m.conversations[a] })
            &&& after.channels.dom() =~= m.channels.dom()
            &&& m.channels.contains_key(channel) ==> {
                let (before, there) = (m.channels[channel], after.channels[channel]);
                &&& !there.members.contains_key(a)
                &&& before.members.contains_key(a) ==> there.members.contains_key(b) && there.members[b]
                    == before.members[a]
                &&& there.log == before.log
            }
            &&& casemapping.folded(m.me.nick) == a ==> after.me.nick == to
        }),
{
}

/// Forgetting strangers keeps exactly those whom we share a channel or a conversation with, and
/// ourselves, and touches nothing else.
pub proof fn law_strangers_are_forgotten(m: ModelView, key: Seq<char>)
    requires
        m.people.contains_key(key),
    ensures
        m.without_strangers().people.contains_key(key) <==> {
            ||| m.conversations.contains_key(key)
            ||| m.is_member_somewhere(key)
            ||| m.people[key].nick == m.me.nick
        },
        m.without_strangers().people.contains_key(key) ==> m.without_strangers().people[key]
            == m.people[key],
        m.without_strangers().channels == m.channels,
        m.without_strangers().conversations == m.conversations,
        m.without_strangers().without_strangers() == m.without_strangers(),
{
    let once = m.without_strangers();
    let twice = once.without_strangers();
    assert forall|k: Seq<char>| once.people.contains_key(k) implies once.is_known(k) by {
        assert(m.is_known(k));
        if m.is_member_somewhere(k) {
            assert(once.is_member_somewhere(k));
        }
    }
    assert(twice.people =~= once.people);
    assert(twice =~= once);
}

} // verus!

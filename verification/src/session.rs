//! Turning protocol lines into model changes.
//!
//! Everything here assumes that registration already happened.

use vstd::prelude::*;
use vstd::string::*;

use crate::extensions::{all_words, preview_on, words_of, LinkPreview};
use crate::isupport::{user_modes, Features, FeaturesView, ModeChange, ModeChangeView};
use crate::model::{
    granted, lemma_trimmed_is_part, next_seq, no_prefixes, remove_char, revoked, ChannelView,
    ConversationView, Log, LogView, MeView, Membership, MembershipView, Message, MessageKey,
    MessageKind, MessageKindView, MessageView, Model, ModelView, PersonView,
};
use crate::sorted::{in_order, SortedMap};
use crate::text::{
    before_first, chars_of, contains_char, contains_string, copy_strings, cut, past_prefix, same,
    split_once, split_words, string_between, string_of, strip_char, take_before, to_upper,
    trim_prefix, upper, without_prefix, words,
};
use crate::wire::{
    ctcp, or_empty, owned, parse_ctcp, prefix_granted, prefix_rank, prefix_run, read_server_time,
    server_time, CaseFolded, Casemapping, Line, LineView, Prefix,
};

verus! {

/// What changed, for a host that wants to react without comparing whole models.
#[derive(Debug, Clone, PartialEq, Eq)]
#[non_exhaustive]
#[allow(inconsistent_fields)]
pub enum Change {
    /// A message landed in a channel or a conversation.
    Message {
        /// The channel or nick it belongs to, as the server spells it.
        target: String,
        /// Where it sits in that target's log.
        key: MessageKey,
    },
    /// We joined a channel.
    Joined {
        /// The channel.
        channel: String,
    },
    /// We left a channel, whether by choice or by being removed.
    Parted {
        /// The channel.
        channel: String,
    },
    /// A channel's member list changed.
    MembersChanged {
        /// The channel.
        channel: String,
    },
    /// A channel's topic changed.
    TopicChanged {
        /// The channel.
        channel: String,
    },
    /// Someone changed nick, possibly us.
    NickChanged {
        /// What they were called.
        from: String,
        /// What they are called now.
        to: String,
    },
    /// A channel's modes changed.
    ModesChanged {
        /// The channel.
        channel: String,
    },
    /// The server confirmed how far we have read, so the unread counts moved.
    ReadMarker {
        /// The channel or person.
        target: String,
    },
    /// A message gained or lost a reaction.
    Reacted {
        /// Where the message is.
        target: String,
        /// The message reacted to.
        msgid: String,
    },
    /// A message was deleted.
    Redacted {
        /// Where the message was.
        target: String,
        /// The message deleted.
        msgid: String,
    },
    /// A metadata key changed on a person, a channel, or us.
    Metadata {
        /// Whose metadata changed.
        target: String,
        /// The key that changed.
        key: String,
    },
}

/// What a change says.
#[allow(inconsistent_fields)]
pub enum ChangeView {
    Message { target: Seq<char>, key: MessageKey },
    Joined { channel: Seq<char> },
    Parted { channel: Seq<char> },
    MembersChanged { channel: Seq<char> },
    TopicChanged { channel: Seq<char> },
    NickChanged { from: Seq<char>, to: Seq<char> },
    ModesChanged { channel: Seq<char> },
    ReadMarker { target: Seq<char> },
    Reacted { target: Seq<char>, msgid: Seq<char> },
    Redacted { target: Seq<char>, msgid: Seq<char> },
    Metadata { target: Seq<char>, key: Seq<char> },
}

impl View for Change {
    type V = ChangeView;

    open spec fn view(&self) -> ChangeView {
        match self {
            Change::Message { target, key } => ChangeView::Message { target: target@, key: *key },
            Change::Joined { channel } => ChangeView::Joined { channel: channel@ },
            Change::Parted { channel } => ChangeView::Parted { channel: channel@ },
            Change::MembersChanged { channel } => ChangeView::MembersChanged { channel: channel@ },
            Change::TopicChanged { channel } => ChangeView::TopicChanged { channel: channel@ },
            Change::NickChanged { from, to } => ChangeView::NickChanged { from: from@, to: to@ },
            Change::ModesChanged { channel } => ChangeView::ModesChanged { channel: channel@ },
            Change::ReadMarker { target } => ChangeView::ReadMarker { target: target@ },
            Change::Reacted { target, msgid } => ChangeView::Reacted {
                target: target@,
                msgid: msgid@,
            },
            Change::Redacted { target, msgid } => ChangeView::Redacted {
                target: target@,
                msgid: msgid@,
            },
            Change::Metadata { target, key } => ChangeView::Metadata { target: target@, key: key@ },
        }
    }
}

impl DeepView for Change {
    type V = ChangeView;

    open spec fn deep_view(&self) -> ChangeView {
        self@
    }
}

/// What a line does: what the model is after it, and what changed.
#[verifier::ext_equal]
pub struct Step {
    pub model: ModelView,
    pub changes: Seq<ChangeView>,
}

/// What a line does, with the latest time seen once it was read.
#[verifier::ext_equal]
pub struct Outcome {
    pub model: ModelView,
    pub latest_ms: u64,
    pub changes: Seq<ChangeView>,
}

/// A line that does nothing.
pub open spec fn nothing(m: ModelView) -> Step {
    Step { model: m, changes: Seq::empty() }
}

/// A line that brings the model to `m` and is reported as one change.
pub open spec fn one(m: ModelView, change: ChangeView) -> Step {
    Step { model: m, changes: seq![change] }
}

fn no_changes() -> (r: Vec<Change>)
    ensures
        r.deep_view() == Seq::<ChangeView>::empty(),
{
    let r: Vec<Change> = Vec::new();
    assert(r.deep_view() =~= Seq::<ChangeView>::empty());
    r
}

fn one_change(change: Change) -> (r: Vec<Change>)
    ensures
        r.deep_view() == seq![change@],
{
    let mut r: Vec<Change> = Vec::new();
    r.push(change);
    assert(r.deep_view() =~= seq![change@]);
    r
}

/// What [`alphanumeric`] of a character is: what `char::is_alphanumeric` of std says of it.
pub uninterp spec fn alphanumeric(c: char) -> bool;

/// `char::is_alphanumeric` of std tells Unicode's letters and numbers. What it says is a function
/// of the character alone, which [`alphanumeric`] names.
pub assume_specification[ char::is_alphanumeric ](c: char) -> (r: bool)
    ensures
        r == alphanumeric(c),
;

/// True for a character that may stand in a nick: letters and digits, and the punctuation
/// ``[]\`_^{|}-``.
pub open spec fn nick_char(c: char) -> bool {
    if c <= '\u{7f}' {
        ||| '0' <= c <= '9'
        ||| 'A' <= c <= 'Z'
        ||| 'a' <= c <= 'z'
        ||| '[' <= c <= '`'
        ||| '{' <= c <= '}'
        ||| c == '-'
    } else {
        alphanumeric(c)
    }
}

/// True for a character that may stand in a nick, which decides where a nick ends.
pub fn is_nick_char(c: char) -> (r: bool)
    ensures
        r == nick_char(c),
{
    if c <= '\u{7f}' {
        ('0' <= c && c <= '9') || ('A' <= c && c <= 'Z') || ('a' <= c && c <= 'z') || ('[' <= c && c
            <= '`') || ('{' <= c && c <= '}') || c == '-'
    } else {
        c.is_alphanumeric()
    }
}

/// True when `needle` stands in `text` at this place.
pub open spec fn occurs_at(text: Seq<char>, needle: Seq<char>, at: int) -> bool {
    0 <= at && at + needle.len() <= text.len() && text.subrange(at, at + needle.len()) == needle
}

/// Where `needle` next stands in `text`, from a place on.
pub open spec fn next_occurrence(text: Seq<char>, needle: Seq<char>, from: int) -> Option<int>
    decreases text.len() - from,
{
    if from < 0 || from + needle.len() > text.len() {
        None
    } else if occurs_at(text, needle, from) {
        Some(from)
    } else if from < text.len() {
        next_occurrence(text, needle, from + 1)
    } else {
        None
    }
}

/// True when what stands before and after a stretch of the text is no part of a nick.
pub open spec fn stands_alone(text: Seq<char>, start: int, end: int) -> bool {
    &&& start > 0 ==> !nick_char(text[start - 1])
    &&& end < text.len() ==> !nick_char(text[end])
}

/// True when one of the places where the nick stands, read from left to right without overlap, is
/// not part of a longer nick.
pub open spec fn stands_in(text: Seq<char>, nick: Seq<char>, from: int) -> bool
    decreases text.len() - from,
{
    match next_occurrence(text, nick, from) {
        None => false,
        Some(start) => {
            let end = start + nick.len();
            if stands_alone(text, start, end) {
                true
            } else if from < end <= text.len() {
                stands_in(text, nick, end)
            } else {
                false
            }
        },
    }
}

/// True when a text addresses a nick, however the two are cased.
pub open spec fn mentioned(casemapping: Casemapping, text: Seq<char>, nick: Seq<char>) -> bool {
    nick.len() > 0 && stands_in(casemapping.folded(text), casemapping.folded(nick), 0)
}

pub(crate) fn find_next(text: &Vec<char>, needle: &Vec<char>, from: usize) -> (r: Option<usize>)
    requires
        from <= text@.len(),
        needle@.len() > 0,
    ensures
        match r {
            Some(i) => {
                &&& from <= i
                &&& i + needle@.len() <= text@.len()
                &&& next_occurrence(text@, needle@, from as int) == Some(i as int)
            },
            None => next_occurrence(text@, needle@, from as int) is None,
        },
{
    let mut at: usize = from;
    while at < text.len() && needle.len() <= text.len() - at
        invariant
            from <= at <= text@.len(),
            needle@.len() > 0,
            next_occurrence(text@, needle@, from as int) == next_occurrence(
                text@,
                needle@,
                at as int,
            ),
        decreases text@.len() - at,
    {
        let mut j: usize = 0;
        while j < needle.len() && text[at + j] == needle[j]
            invariant
                j <= needle@.len(),
                at + needle.len() <= text.len(),
                forall|n: int| 0 <= n < j ==> text@[at + n] == needle@[n],
            decreases needle@.len() - j,
        {
            j = j + 1;
        }
        if j == needle.len() {
            assert(text@.subrange(at as int, at + needle@.len()) =~= needle@);
            return Some(at);
        }
        assert(text@.subrange(at as int, at + needle@.len())[j as int] != needle@[j as int]);
        at = at + 1;
    }
    None
}

/// True when this text addresses `nick`, under the server's casemapping.
pub fn mentions(casemapping: Casemapping, text: &str, nick: &str) -> (r: bool)
    ensures
        r == mentioned(casemapping, text@, nick@),
{
    if nick.is_empty() {
        return false;
    }
    let needle = chars_of(casemapping.fold(nick).as_str());
    let folded = chars_of(casemapping.fold(text).as_str());
    let mut from: usize = 0;
    while from <= folded.len()
        invariant
            from <= folded@.len(),
            needle@.len() > 0,
            needle@ == casemapping.folded(nick@),
            folded@ == casemapping.folded(text@),
            nick@.len() > 0,
            stands_in(folded@, needle@, 0) == stands_in(folded@, needle@, from as int),
        decreases folded@.len() - from,
    {
        let start: usize = match find_next(&folded, &needle, from) {
            Some(start) => start,
            None => return false,
        };
        let end: usize = start + needle.len();
        let before = start > 0 && is_nick_char(folded[start - 1]);
        let after = end < folded.len() && is_nick_char(folded[end]);
        if !before && !after {
            return true;
        }
        from = end;
    }
    false
}

/// When a line happened: the time it carries, and otherwise the latest time already seen.
pub open spec fn stamped(line: LineView, latest_ms: u64) -> u64 {
    match line.tag("time"@) {
        Some(text) => match server_time(text) {
            Some(ms) => ms,
            None => latest_ms,
        },
        None => latest_ms,
    }
}

/// The later of two times.
pub open spec fn later(a: u64, b: u64) -> u64 {
    if a < b {
        b
    } else {
        a
    }
}

fn stamp(line: &Line, latest_ms: &mut u64) -> (r: u64)
    ensures
        r == stamped(line@, *old(latest_ms)),
        *final(latest_ms) == later(*old(latest_ms), r),
{
    let at: u64 = match line.tag("time") {
        Some(text) => match read_server_time(text) {
            Some(ms) => ms,
            None => *latest_ms,
        },
        None => *latest_ms,
    };
    if *latest_ms < at {
        *latest_ms = at;
    }
    at
}

/// The reaction on a line, and whether it is given or taken back.
pub open spec fn reaction_on(line: LineView) -> Option<(Seq<char>, bool)> {
    match (line.tag("+draft/react"@), line.tag("+draft/unreact"@)) {
        (Some(emoji), _) => Some((emoji, true)),
        (None, Some(emoji)) => Some((emoji, false)),
        (None, None) => None,
    }
}

/// True of every text but one.
pub open spec fn another(who: Seq<char>) -> spec_fn(Seq<char>) -> bool {
    |x: Seq<char>| x != who
}

/// The reactions once someone gave one or took one back. Giving one twice counts once, and an emoji
/// that nobody reacts with any more is not kept.
pub open spec fn reacted(
    reactions: Map<Seq<char>, Seq<Seq<char>>>,
    emoji: Seq<char>,
    who: Seq<char>,
    adding: bool,
) -> Map<Seq<char>, Seq<Seq<char>>> {
    let had = if reactions.contains_key(emoji) {
        reactions[emoji]
    } else {
        Seq::empty()
    };
    if adding {
        reactions.insert(
            emoji,
            if had.contains(who) {
                had
            } else {
                had.push(who)
            },
        )
    } else {
        let left = had.filter(another(who));
        if left.len() == 0 {
            reactions.remove(emoji)
        } else {
            reactions.insert(emoji, left)
        }
    }
}

/// What a reaction does, where the line is one. A reaction to a message that we do not hold changes
/// nothing, and is not a message of its own.
pub open spec fn on_reaction(m: ModelView, f: FeaturesView, line: LineView) -> Option<Step> {
    match (reaction_on(line), line.reply_tag(), line.param(0)) {
        (Some((emoji, adding)), Some(msgid), Some(target)) => {
            let key = f.fold(target);
            match m.message_at(key, msgid) {
                Some(held) => Some(
                    one(
                        m.with_message(
                            key,
                            msgid,
                            MessageView {
                                reactions: reacted(
                                    held.reactions,
                                    emoji,
                                    f.fold(line.sender()),
                                    adding,
                                ),
                                ..held
                            },
                        ),
                        ChangeView::Reacted { target, msgid },
                    ),
                ),
                None => Some(nothing(m)),
            }
        },
        _ => None,
    }
}

fn remove_string(parts: &Vec<String>, s: &str) -> (r: Vec<String>)
    ensures
        r.deep_view() == parts.deep_view().filter(another(s@)),
{
    let ghost all = parts.deep_view();
    let ghost keep = another(s@);
    let mut out: Vec<String> = Vec::new();
    let mut i: usize = 0;
    assert(out.deep_view() =~= all.take(0).filter(keep)) by {
        reveal(Seq::filter);
    }
    while i < parts.len()
        invariant
            i <= parts@.len(),
            all == parts.deep_view(),
            keep == another(s@),
            out.deep_view() == all.take(i as int).filter(keep),
        decreases parts@.len() - i,
    {
        let ghost had = out.deep_view();
        proof {
            reveal(Seq::filter);
            assert(all.take(i + 1).drop_last() =~= all.take(i as int));
        }
        if !same(&parts[i], s) {
            out.push(parts[i].clone());
            assert(out.deep_view() =~= had.push(all[i as int]));
        }
        i = i + 1;
    }
    assert(all.take(all.len() as int) =~= all);
    out
}

fn react(
    reactions: &mut SortedMap<String, Vec<String>>,
    emoji: &str,
    who: String,
    adding: bool,
)
    ensures
        final(reactions)@ == reacted(old(reactions)@, emoji@, who@, adding),
{
    let ghost start = reactions@;
    let none: Vec<String> = Vec::new();
    assert(none.deep_view() =~= Seq::<Seq<char>>::empty());
    let reactors = reactions.get_or_insert(emoji.to_owned(), none);
    let ghost had = reactors.deep_view();
    if adding {
        if !contains_string(reactors, &who) {
            reactors.push(who);
            assert(reactors.deep_view() =~= had.push(who@));
        }
    } else {
        let left = remove_string(reactors, &who);
        let empty = left.len() == 0;
        *reactors = left;
        if empty {
            let _ = reactions.remove(&emoji.to_owned());
            assert(reactions@ =~= start.remove(emoji@));
        }
    }
}

/// Apply a reaction carried on a TAGMSG, if that is what the line is.
pub fn reaction(model: &mut Model, features: &Features, line: &Line) -> (r: Option<Vec<Change>>)
    ensures
        match on_reaction(old(model)@, features@, line@) {
            Some(step) => {
                &&& r is Some
                &&& r->0.deep_view() == step.changes
                &&& final(model)@ == step.model
            },
            None => r is None && final(model)@ == old(model)@,
        },
{
    let (emoji, adding) = match (line.tag("+draft/react"), line.tag("+draft/unreact")) {
        (Some(emoji), _) => (emoji, true),
        (None, Some(emoji)) => (emoji, false),
        (None, None) => return None,
    };
    let msgid = match line.reply_tag() {
        Some(msgid) => msgid,
        None => return None,
    };
    let target = match line.param(0) {
        Some(target) => target,
        None => return None,
    };
    let who = features.fold(&line.sender()).into_string();
    let key = features.fold(target);
    match model.message_mut(&key, msgid) {
        Some(message) => {
            react(&mut message.reactions, emoji, who, adding);
            Some(
                one_change(Change::Reacted { target: target.to_owned(), msgid: msgid.to_owned() }),
            )
        },
        None => Some(no_changes()),
    }
}

/// What a link preview does. A preview of a message that we do not hold changes nothing, and is not
/// a message of its own.
pub open spec fn on_link_preview(m: ModelView, f: FeaturesView, line: LineView) -> Option<Step> {
    match preview_on(line) {
        None => None,
        Some((msgid, preview)) => Some(
            match line.param(0) {
                None => nothing(m),
                Some(target) => {
                    let key = f.fold(target);
                    match m.message_at(key, msgid) {
                        None => nothing(m),
                        Some(held) => one(
                            m.with_message(
                                key,
                                msgid,
                                MessageView { link_preview: Some(preview), ..held },
                            ),
                            ChangeView::Message { target, key: held.key },
                        ),
                    }
                },
            },
        ),
    }
}

/// Attach a link preview to the message it describes, if the line carries one.
pub fn link_preview(model: &mut Model, features: &Features, line: &Line) -> (r: Option<Vec<Change>>)
    ensures
        match on_link_preview(old(model)@, features@, line@) {
            Some(step) => {
                &&& r is Some
                &&& r->0.deep_view() == step.changes
                &&& final(model)@ == step.model
            },
            None => r is None && final(model)@ == old(model)@,
        },
{
    let (msgid, preview) = match LinkPreview::parse(line) {
        Some(found) => found,
        None => return None,
    };
    let target = match line.param(0) {
        Some(target) => target,
        None => return Some(no_changes()),
    };
    let key = features.fold(target);
    match model.message_mut(&key, &msgid) {
        Some(message) => {
            message.link_preview = Some(preview);
            let at = message.key;
            Some(one_change(Change::Message { target: target.to_owned(), key: at }))
        },
        None => Some(no_changes()),
    }
}

/// How many characters at the front of a target address part of a channel's members.
pub open spec fn status_run(f: FeaturesView, target: Seq<char>) -> nat
    decreases target.len(),
{
    if target.len() == 0 || !f.is_statusmsg(target[0]) {
        0
    } else {
        1 + status_run(f, target.drop_first())
    }
}

/// The target of a message without the status prefixes before it.
pub open spec fn addressed(f: FeaturesView, target: Seq<char>) -> Seq<char> {
    target.skip(status_run(f, target) as int)
}

proof fn lemma_status_run(f: FeaturesView, target: Seq<char>, n: nat)
    requires
        n <= target.len(),
        forall|i: int| 0 <= i < n ==> f.is_statusmsg(#[trigger] target[i]),
        n < target.len() ==> !f.is_statusmsg(target[n as int]),
    ensures
        status_run(f, target) == n,
    decreases target.len(),
{
    if n > 0 {
        let rest = target.drop_first();
        assert forall|i: int| 0 <= i < n - 1 implies f.is_statusmsg(#[trigger] rest[i]) by {
            assert(rest[i] == target[i + 1]);
        }
        assert(f.is_statusmsg(target[0]));
        lemma_status_run(f, rest, (n - 1) as nat);
    }
}

fn address(features: &Features, target: &str) -> (r: String)
    ensures
        r@ == addressed(features@, target@),
{
    let chars = chars_of(target);
    let mut i: usize = 0;
    while i < chars.len() && features.is_statusmsg(chars[i])
        invariant
            i <= chars@.len(),
            chars@ == target@,
            forall|j: int| 0 <= j < i ==> features@.is_statusmsg(#[trigger] target@[j]),
        decreases chars@.len() - i,
    {
        i = i + 1;
    }
    proof {
        lemma_status_run(features@, target@, i as nat);
    }
    let r = string_between(&chars, i, chars.len());
    assert(r@ =~= target@.skip(i as int));
    r
}

/// What a message of this command with this body is, and what it says.
pub open spec fn kind_and_text(command: Seq<char>, body: Seq<char>) -> (MessageKindView, Seq<char>) {
    if command == "TAGMSG"@ {
        (MessageKindView::Tagmsg, Seq::empty())
    } else if command == "NOTICE"@ {
        (MessageKindView::Notice, body)
    } else {
        match ctcp(body) {
            Some(c) => (MessageKindView::Ctcp { command: upper(c.command) }, c.params),
            None => (MessageKindView::Privmsg, body),
        }
    }
}

fn kind_of(command: &str, body: String) -> (r: (MessageKind, String))
    ensures
        (r.0@, r.1@) == kind_and_text(command@, body@),
{
    if same(command, "TAGMSG") {
        (MessageKind::Tagmsg, String::new())
    } else if same(command, "NOTICE") {
        (MessageKind::Notice, body)
    } else {
        match parse_ctcp(&body) {
            Some((name, params)) => (MessageKind::Ctcp { command: to_upper(&name) }, params),
            None => (MessageKind::Privmsg, body),
        }
    }
}

/// The message that a line carries.
pub open spec fn message_on(
    m: ModelView,
    f: FeaturesView,
    line: LineView,
    command: Seq<char>,
    key: MessageKey,
    historical: bool,
) -> MessageView {
    let (kind, text) = kind_and_text(command, line.param_or_empty(1));
    MessageView {
        text,
        msgid: line.tag("msgid"@),
        account: line.tag("account"@),
        own: f.same_name(m.me.nick, line.sender()),
        historical,
        reply_to: line.reply_tag(),
        ..MessageView::bare(key, line.sender(), kind)
    }
}

/// One more, as far as can be counted.
pub open spec fn one_more(n: u32) -> u32 {
    if n == u32::MAX {
        n
    } else {
        (n + 1) as u32
    }
}

/// A channel once a message was offered to it. A message that is new and counts is unread, and one
/// that names us is counted as that too.
pub open spec fn channel_with(c: ChannelView, msg: MessageView, names_us: bool) -> ChannelView {
    let counts = !c.log.has(msg) && !msg.own && !msg.historical;
    ChannelView {
        log: c.log.inserted(msg),
        unread: if counts {
            one_more(c.unread)
        } else {
            c.unread
        },
        mentions: if counts && names_us {
            one_more(c.mentions)
        } else {
            c.mentions
        },
        ..c
    }
}

/// A conversation once a message was offered to it.
pub open spec fn conversation_with(c: ConversationView, msg: MessageView) -> ConversationView {
    let counts = !c.log.has(msg) && !msg.own && !msg.historical;
    ConversationView {
        log: c.log.inserted(msg),
        unread: if counts {
            one_more(c.unread)
        } else {
            c.unread
        },
        ..c
    }
}

/// What filing a message does. One to a channel goes there, and nowhere when we are not in it. One
/// of ours goes to the conversation with whom it is for, and any other to the one with its sender.
pub open spec fn filed(m: ModelView, f: FeaturesView, target: Seq<char>, msg: MessageView) -> Step {
    let to = addressed(f, target);
    if f.is_channel(to) {
        let key = f.fold(to);
        if !m.channels.contains_key(key) {
            nothing(m)
        } else {
            let c = m.channels[key];
            let names_us = mentioned(f.casemapping(), msg.text, m.me.nick);
            let after = m.with_channel(key, channel_with(c, msg, names_us));
            if c.log.has(msg) {
                Step { model: after, changes: Seq::empty() }
            } else {
                one(after, ChangeView::Message { target: to, key: msg.key })
            }
        }
    } else {
        let name = if msg.own {
            target
        } else {
            msg.sender
        };
        let key = f.fold(name);
        let c = m.conversation_or_fresh(key, name);
        let after = m.with_conversation(key, conversation_with(c, msg));
        if c.log.has(msg) {
            Step { model: after, changes: Seq::empty() }
        } else {
            one(after, ChangeView::Message { target: name, key: msg.key })
        }
    }
}

/// What a PRIVMSG, a NOTICE or a TAGMSG does. A TAGMSG may be a reaction or a link preview; any
/// other is a message.
pub open spec fn on_message(
    m: ModelView,
    f: FeaturesView,
    latest_ms: u64,
    historical: bool,
    line: LineView,
    command: Seq<char>,
) -> Outcome {
    let tagmsg = command == "TAGMSG"@;
    match line.param(0) {
        None => Outcome { model: m, latest_ms, changes: Seq::empty() },
        Some(target) => if tagmsg && on_reaction(m, f, line) is Some {
            let step = on_reaction(m, f, line)->0;
            Outcome { model: step.model, latest_ms, changes: step.changes }
        } else if tagmsg && on_link_preview(m, f, line) is Some {
            let step = on_link_preview(m, f, line)->0;
            Outcome { model: step.model, latest_ms, changes: step.changes }
        } else {
            let time_ms = stamped(line, latest_ms);
            let key = MessageKey { time_ms, seq: m.next_seq };
            let counted = ModelView { next_seq: next_seq(m.next_seq), ..m };
            let step = filed(
                counted,
                f,
                target,
                message_on(m, f, line, command, key, historical),
            );
            Outcome {
                model: step.model,
                latest_ms: later(latest_ms, time_ms),
                changes: step.changes,
            }
        },
    }
}

/// File a message where it belongs.
pub fn file(model: &mut Model, features: &Features, target: &str, message: Message) -> (r: Vec<
    Change,
>)
    ensures
        r.deep_view() == filed(old(model)@, features@, target@, message@).changes,
        final(model)@ == filed(old(model)@, features@, target@, message@).model,
{
    let to = address(features, target);
    let key = message.key;
    let counts = !message.own && !message.historical;
    if features.is_channel(&to) {
        let folded = features.fold(&to);
        let names_us = counts && mentions(features.casemapping(), &message.text, &model.me().nick);
        match model.existing_channel_mut(&folded) {
            None => no_changes(),
            Some(channel) => {
                let accepted = channel.log.insert(message);
                if accepted && counts {
                    channel.unread = channel.unread.saturating_add(1);
                    if names_us {
                        channel.mentions = channel.mentions.saturating_add(1);
                    }
                }
                if accepted {
                    one_change(Change::Message { target: to, key })
                } else {
                    no_changes()
                }
            },
        }
    } else {
        let name = if message.own {
            target.to_owned()
        } else {
            message.sender.clone()
        };
        let folded = features.fold(&name);
        let conversation = model.conversation_mut(folded, &name);
        let accepted = conversation.log.insert(message);
        if accepted && counts {
            conversation.unread = conversation.unread.saturating_add(1);
        }
        if accepted {
            one_change(Change::Message { target: name, key })
        } else {
            no_changes()
        }
    }
}

/// Apply a PRIVMSG, a NOTICE or a TAGMSG. `command` is which, in upper case.
pub fn message(
    model: &mut Model,
    features: &Features,
    latest_ms: &mut u64,
    historical: bool,
    line: &Line,
    command: &str,
) -> (r: Vec<Change>)
    ensures
        ({
            let o = on_message(
                old(model)@,
                features@,
                *old(latest_ms),
                historical,
                line@,
                command@,
            );
            &&& r.deep_view() == o.changes
            &&& final(model)@ == o.model
            &&& *final(latest_ms) == o.latest_ms
        }),
{
    let target = match line.param(0) {
        Some(target) => target,
        None => return no_changes(),
    };
    let ghost start = model@;
    if same(command, "TAGMSG") {
        if let Some(changes) = reaction(model, features, line) {
            return changes;
        }
        if let Some(changes) = link_preview(model, features, line) {
            return changes;
        }
    }
    let sender = line.sender();
    let time_ms: u64 = stamp(line, latest_ms);
    let key = model.next_key(time_ms);
    let (kind, text) = kind_of(command, or_empty(line.param(1)));
    let own = features.casemapping().matches(&model.me().nick, &sender);
    let mut message = Message::new(key, sender, kind);
    message.text = text;
    message.msgid = owned(line.tag("msgid"));
    message.account = owned(line.tag("account"));
    message.own = own;
    message.historical = historical;
    message.reply_to = owned(line.reply_tag());
    assert(message@ == message_on(start, features@, line@, command@, key, historical));
    file(model, features, target, message)
}

/// What a JOIN does. Ours brings the channel into being. Another's adds a member to a channel that
/// we are in, and is nothing to one that we are not in.
pub open spec fn on_join(m: ModelView, f: FeaturesView, line: LineView) -> Step {
    match line.param(0) {
        None => nothing(m),
        Some(channel) => {
            let who = line.sender();
            let folded = f.fold(channel);
            if f.same_name(m.me.nick, who) {
                one(
                    m.with_channel(folded, m.channel_or_fresh(folded, channel)),
                    ChangeView::Joined { channel },
                )
            } else if !m.channels.contains_key(folded) {
                nothing(m)
            } else {
                let key = f.fold(who);
                let held = m.person_or_named(key, who);
                let account = match line.param(1) {
                    Some(account) => if account == "*"@ {
                        held.account
                    } else {
                        Some(account)
                    },
                    None => held.account,
                };
                let c = m.channels[folded];
                one(
                    m.with_person(key, PersonView { nick: who, account, ..held }).with_channel(
                        folded,
                        ChannelView { members: with_member(c.members, key), ..c },
                    ),
                    ChangeView::MembersChanged { channel },
                )
            }
        },
    }
}

/// The members with this one among them, who holds no prefix when they are new.
pub open spec fn with_member(
    members: Map<Seq<char>, MembershipView>,
    key: Seq<char>,
) -> Map<Seq<char>, MembershipView> {
    if members.contains_key(key) {
        members
    } else {
        members.insert(key, no_prefixes())
    }
}

/// Apply a JOIN.
pub fn join(model: &mut Model, features: &Features, line: &Line) -> (r: Vec<Change>)
    ensures
        r.deep_view() == on_join(old(model)@, features@, line@).changes,
        final(model)@ == on_join(old(model)@, features@, line@).model,
{
    let channel = match line.param(0) {
        Some(channel) => channel,
        None => return no_changes(),
    };
    let who = line.sender();
    let folded = features.fold(channel);
    let ghost start = model@;
    if features.casemapping().matches(&model.me().nick, &who) {
        let _ = model.channel_mut(folded, channel);
        return one_change(Change::Joined { channel: channel.to_owned() });
    }
    if model.channel(&folded).is_none() {
        return no_changes();
    }
    let key = features.fold(&who);
    let person = model.person_mut(key.clone(), &who);
    person.nick = who;
    // extended-join carries the account on the JOIN itself, sparing us a WHO for it
    if let Some(account) = line.param(1) {
        if !same(account, "*") {
            person.account = Some(account.to_owned());
        }
    }
    if let Some(entry) = model.existing_channel_mut(&folded) {
        let ghost had = entry.members@;
        let _ = entry.members.get_or_insert(key, Membership::default());
        assert(entry.members@ =~= with_member(had, key@));
    }
    one_change(Change::MembersChanged { channel: channel.to_owned() })
}

/// What someone leaving a channel does. Our leaving forgets the channel. Another's takes them off
/// its members, and forgets them where we share nothing else.
pub open spec fn on_departure(
    m: ModelView,
    f: FeaturesView,
    channel: Seq<char>,
    who: Seq<char>,
) -> Step {
    let folded = f.fold(channel);
    if f.same_name(m.me.nick, who) {
        one(
            ModelView { channels: m.channels.remove(folded), ..m },
            ChangeView::Parted { channel },
        )
    } else {
        let left = if m.channels.contains_key(folded) {
            let c = m.channels[folded];
            m.with_channel(folded, ChannelView { members: c.members.remove(f.fold(who)), ..c })
        } else {
            m
        };
        one(left.without_strangers(), ChangeView::MembersChanged { channel })
    }
}

fn departure(model: &mut Model, features: &Features, channel: &str, who: &str) -> (r: Vec<Change>)
    ensures
        r.deep_view() == on_departure(old(model)@, features@, channel@, who@).changes,
        final(model)@ == on_departure(old(model)@, features@, channel@, who@).model,
{
    let folded = features.fold(channel);
    if features.casemapping().matches(&model.me().nick, who) {
        let _ = model.remove_channel(&folded);
        return one_change(Change::Parted { channel: channel.to_owned() });
    }
    if let Some(entry) = model.existing_channel_mut(&folded) {
        let _ = entry.members.remove(&features.fold(who));
    }
    model.forget_strangers();
    one_change(Change::MembersChanged { channel: channel.to_owned() })
}

/// What a PART does: its sender leaves.
pub open spec fn on_part(m: ModelView, f: FeaturesView, line: LineView) -> Step {
    match line.param(0) {
        Some(channel) => on_departure(m, f, channel, line.sender()),
        None => nothing(m),
    }
}

/// Apply a PART.
pub fn part(model: &mut Model, features: &Features, line: &Line) -> (r: Vec<Change>)
    ensures
        r.deep_view() == on_part(old(model)@, features@, line@).changes,
        final(model)@ == on_part(old(model)@, features@, line@).model,
{
    match line.param(0) {
        Some(channel) => departure(model, features, channel, &line.sender()),
        None => no_changes(),
    }
}

/// What a KICK does: the one it names leaves.
pub open spec fn on_kick(m: ModelView, f: FeaturesView, line: LineView) -> Step {
    match (line.param(0), line.param(1)) {
        (Some(channel), Some(target)) => on_departure(m, f, channel, target),
        _ => nothing(m),
    }
}

/// Apply a KICK.
pub fn kick(model: &mut Model, features: &Features, line: &Line) -> (r: Vec<Change>)
    ensures
        r.deep_view() == on_kick(old(model)@, features@, line@).changes,
        final(model)@ == on_kick(old(model)@, features@, line@).model,
{
    match (line.param(0), line.param(1)) {
        (Some(channel), Some(target)) => departure(model, features, channel, target),
        _ => no_changes(),
    }
}

/// For each of these channels, that its members changed.
pub open spec fn members_changed(m: ModelView, keys: Seq<Seq<char>>) -> Seq<ChangeView> {
    keys.map_values(member_change(m))
}

/// That the members of the channel under a key changed.
pub open spec fn member_change(m: ModelView) -> spec_fn(Seq<char>) -> ChangeView {
    |k: Seq<char>| ChangeView::MembersChanged { channel: m.channels[k].name }
}

/// What a QUIT does: its sender leaves every channel, and is forgotten where we share nothing else.
pub open spec fn on_quit(m: ModelView, f: FeaturesView, line: LineView) -> Step {
    let who = f.fold(line.sender());
    Step {
        model: m.without_member(who).without_strangers(),
        changes: members_changed(m, m.channels_of(who)),
    }
}

/// Apply a QUIT.
pub fn quit(model: &mut Model, features: &Features, line: &Line) -> (r: Vec<Change>)
    ensures
        r.deep_view() == on_quit(old(model)@, features@, line@).changes,
        final(model)@ == on_quit(old(model)@, features@, line@).model,
{
    let ghost start = model@;
    let who = features.fold(&line.sender());
    let left = model.remove_everywhere(&who);
    model.forget_strangers();
    let ghost all = members_changed(start, left.deep_view());
    let mut out: Vec<Change> = Vec::new();
    let mut i: usize = 0;
    proof {
        let order = in_order(start.channels.dom());
        assert forall|j: int| 0 <= j < left@.len() implies start.channels.contains_key(
            #[trigger] left@[j]@,
        ) by {
            let p = |k: Seq<char>| start.channels[k].members.contains_key(who@);
            assert(order.filter(p)[j] == left.deep_view()[j]);
            assert(order.filter(p).contains(left@[j]@));
            order.lemma_filter_contains_rev(p, left@[j]@);
        }
    }
    while i < left.len()
        invariant
            i <= left@.len(),
            all == members_changed(start, left.deep_view()),
            out.deep_view() == all.take(i as int),
            forall|j: int|
                0 <= j < left@.len() ==> start.channels.contains_key(#[trigger] left@[j]@),
            model@.channels == start.without_member(who@).channels,
        decreases left@.len() - i,
    {
        let ghost had = out.deep_view();
        assert(start.channels.contains_key(left@[i as int]@));
        if let Some(channel) = model.channel(&left[i]) {
            let change = Change::MembersChanged { channel: channel.name.clone() };
            assert(change@ == all[i as int]);
            out.push(change);
            assert(out.deep_view() =~= had.push(all[i as int]));
        }
        i = i + 1;
        assert(out.deep_view() =~= all.take(i as int));
    }
    assert(all.take(left@.len() as int) =~= all);
    out
}

/// What a NICK does: its sender is called otherwise from now on.
pub open spec fn on_nick(m: ModelView, f: FeaturesView, line: LineView) -> Step {
    match line.param(0) {
        None => nothing(m),
        Some(to) => one(
            m.renamed(f.casemapping(), line.sender(), to),
            ChangeView::NickChanged { from: line.sender(), to },
        ),
    }
}

/// Apply a NICK.
pub fn nick(model: &mut Model, features: &Features, line: &Line) -> (r: Vec<Change>)
    ensures
        r.deep_view() == on_nick(old(model)@, features@, line@).changes,
        final(model)@ == on_nick(old(model)@, features@, line@).model,
{
    let to = match line.param(0) {
        Some(to) => to,
        None => return no_changes(),
    };
    let from = line.sender();
    model.rename(features.casemapping(), &from, to);
    one_change(Change::NickChanged { from, to: to.to_owned() })
}

/// A text, or nothing where it is empty.
pub open spec fn unless_empty(text: Seq<char>) -> Option<Seq<char>> {
    if text.len() == 0 {
        None
    } else {
        Some(text)
    }
}

fn some_unless_empty(text: String) -> (r: Option<String>)
    ensures
        r.deep_view() == unless_empty(text@),
{
    if text.as_str().is_empty() {
        None
    } else {
        Some(text)
    }
}

/// What a TOPIC does. An empty one leaves none.
pub open spec fn on_topic(m: ModelView, f: FeaturesView, line: LineView) -> Step {
    match line.param(0) {
        Some(channel) if m.channels.contains_key(f.fold(channel)) => {
            let c = m.channels[f.fold(channel)];
            one(
                m.with_channel(
                    f.fold(channel),
                    ChannelView {
                        topic: unless_empty(line.param_or_empty(1)),
                        topic_by: Some(line.sender()),
                        ..c
                    },
                ),
                ChangeView::TopicChanged { channel },
            )
        },
        _ => nothing(m),
    }
}

/// Apply a TOPIC.
pub fn topic(model: &mut Model, features: &Features, line: &Line) -> (r: Vec<Change>)
    ensures
        r.deep_view() == on_topic(old(model)@, features@, line@).changes,
        final(model)@ == on_topic(old(model)@, features@, line@).model,
{
    let channel = match line.param(0) {
        Some(channel) => channel,
        None => return no_changes(),
    };
    let text = some_unless_empty(or_empty(line.param(1)));
    match model.existing_channel_mut(&features.fold(channel)) {
        Some(entry) => {
            entry.topic = text;
            entry.topic_by = Some(line.sender());
            one_change(Change::TopicChanged { channel: channel.to_owned() })
        },
        None => no_changes(),
    }
}

/// What a reply that gives a topic does. It does not say who set it.
pub open spec fn on_topic_reply(m: ModelView, f: FeaturesView, line: LineView) -> Step {
    match line.param(1) {
        Some(channel) if m.channels.contains_key(f.fold(channel)) => {
            let c = m.channels[f.fold(channel)];
            one(
                m.with_channel(
                    f.fold(channel),
                    ChannelView { topic: unless_empty(line.param_or_empty(2)), ..c },
                ),
                ChangeView::TopicChanged { channel },
            )
        },
        _ => nothing(m),
    }
}

/// Apply a reply that gives a topic.
pub fn topic_reply(model: &mut Model, features: &Features, line: &Line) -> (r: Vec<Change>)
    ensures
        r.deep_view() == on_topic_reply(old(model)@, features@, line@).changes,
        final(model)@ == on_topic_reply(old(model)@, features@, line@).model,
{
    let channel = match line.param(1) {
        Some(channel) => channel,
        None => return no_changes(),
    };
    let text = some_unless_empty(or_empty(line.param(2)));
    match model.existing_channel_mut(&features.fold(channel)) {
        Some(entry) => {
            entry.topic = text;
            one_change(Change::TopicChanged { channel: channel.to_owned() })
        },
        None => no_changes(),
    }
}

/// The nick in one entry of a NAMES reply: what follows the prefixes, up to a hostmask's `!`.
pub open spec fn entry_nick(f: FeaturesView, entry: Seq<char>) -> Seq<char> {
    before_first(entry.skip(prefix_run(f.prefix, entry) as int), '!')
}

/// What one entry of a NAMES reply does to a channel that we are in.
pub open spec fn with_entry(
    m: ModelView,
    f: FeaturesView,
    folded: Seq<char>,
    entry: Seq<char>,
) -> ModelView {
    let nick = entry_nick(f, entry);
    if nick.len() == 0 {
        m
    } else {
        let key = f.fold(nick);
        let c = m.channels[folded];
        let prefixes = entry.take(prefix_run(f.prefix, entry) as int);
        m.with_person(key, PersonView { nick, ..m.person_or_named(key, nick) }).with_channel(
            folded,
            ChannelView { members: c.members.insert(key, MembershipView { prefixes }), ..c },
        )
    }
}

/// What the entries of a NAMES reply do, one after another, to a channel that we are in.
pub open spec fn with_entries(
    m: ModelView,
    f: FeaturesView,
    folded: Seq<char>,
    entries: Seq<Seq<char>>,
) -> ModelView
    decreases entries.len(),
{
    if entries.len() == 0 {
        m
    } else {
        with_entry(with_entries(m, f, folded, entries.drop_last()), f, folded, entries.last())
    }
}

/// True when an entry names someone.
pub open spec fn names_someone(f: FeaturesView, entries: Seq<Seq<char>>) -> bool {
    exists|i: int| 0 <= i < entries.len() && entry_nick(f, #[trigger] entries[i]).len() > 0
}

/// What a NAMES reply does. One that names someone in a channel that we are not in does nothing.
pub open spec fn on_names(m: ModelView, f: FeaturesView, line: LineView) -> Step {
    match line.param(2) {
        None => nothing(m),
        Some(channel) => {
            let folded = f.fold(channel);
            let entries = words(line.trailing_or_empty());
            if m.channels.contains_key(folded) {
                one(with_entries(m, f, folded, entries), ChangeView::MembersChanged { channel })
            } else if names_someone(f, entries) {
                nothing(m)
            } else {
                one(m, ChangeView::MembersChanged { channel })
            }
        },
    }
}

/// Apply a NAMES reply.
pub fn names(model: &mut Model, features: &Features, line: &Line) -> (r: Vec<Change>)
    ensures
        r.deep_view() == on_names(old(model)@, features@, line@).changes,
        final(model)@ == on_names(old(model)@, features@, line@).model,
{
    let channel = match line.param(2) {
        Some(channel) => channel,
        None => return no_changes(),
    };
    let folded = features.fold(channel);
    let entries = split_words(&or_empty(line.trailing()));
    let ghost all = entries.deep_view();
    let ghost start = model@;
    let known = model.channel(&folded).is_some();
    let mut i: usize = 0;
    while i < entries.len()
        invariant
            i <= entries@.len(),
            all == entries.deep_view(),
            all == words(line@.trailing_or_empty()),
            known == start.channels.contains_key(folded@),
            folded@ == features@.fold(channel@),
            line@.param(2) == Some(channel@),
            start == old(model)@,
            known ==> model@ == with_entries(start, features@, folded@, all.take(i as int)),
            known ==> model@.channels.contains_key(folded@),
            !known ==> model@ == start,
            !known ==> forall|j: int|
                0 <= j < i ==> entry_nick(features@, #[trigger] all[j]).len() == 0,
        decreases entries@.len() - i,
    {
        let entry = &entries[i];
        assert(all.take(i + 1).drop_last() =~= all.take(i as int));
        assert(all[i as int] == entry@);
        let (prefixes, rest) = features.prefix().split(entry);
        let nick = take_before(&rest, '!');
        i = i + 1;
        if !nick.as_str().is_empty() {
            if !known {
                assert(names_someone(features@, all));
                return no_changes();
            }
            let key = features.fold(&nick);
            let person = model.person_mut(key.clone(), &nick);
            person.nick = nick;
            if let Some(entry) = model.existing_channel_mut(&folded) {
                let _ = entry.members.insert(key, Membership { prefixes });
            }
        }
    }
    assert(all.take(all.len() as int) =~= all);
    one_change(Change::MembersChanged { channel: channel.to_owned() })
}

/// What a REDACT does: it marks a message that we hold, and keeps what it said.
pub open spec fn on_redact(m: ModelView, f: FeaturesView, line: LineView) -> Step {
    match (line.param(0), line.param(1)) {
        (Some(target), Some(msgid)) => match m.message_at(f.fold(target), msgid) {
            Some(held) => one(
                m.with_message(f.fold(target), msgid, MessageView { redacted: true, ..held }),
                ChangeView::Redacted { target, msgid },
            ),
            None => nothing(m),
        },
        _ => nothing(m),
    }
}

/// Apply a REDACT.
pub fn redact(model: &mut Model, features: &Features, line: &Line) -> (r: Vec<Change>)
    ensures
        r.deep_view() == on_redact(old(model)@, features@, line@).changes,
        final(model)@ == on_redact(old(model)@, features@, line@).model,
{
    match (line.param(0), line.param(1)) {
        (Some(target), Some(msgid)) => match model.message_mut(&features.fold(target), msgid) {
            Some(message) => {
                message.redacted = true;
                one_change(Change::Redacted { target: target.to_owned(), msgid: msgid.to_owned() })
            },
            None => no_changes(),
        },
        _ => no_changes(),
    }
}

/// A store of metadata with one key set, or cleared where there is no value.
pub open spec fn with_key(
    store: Map<Seq<char>, Seq<char>>,
    key: Seq<char>,
    value: Option<Seq<char>>,
) -> Map<Seq<char>, Seq<char>> {
    match value {
        Some(value) => store.insert(key, value),
        None => store.remove(key),
    }
}

fn set_key(store: &mut SortedMap<String, String>, key: &str, value: &Option<String>)
    ensures
        final(store)@ == with_key(old(store)@, key@, value.deep_view()),
{
    match value {
        Some(value) => {
            let _ = store.insert(key.to_owned(), value.clone());
        },
        None => {
            let _ = store.remove(&key.to_owned());
        },
    }
}

/// What one metadata key does to whom it belongs to. `*` stands for us. A key on a channel that we
/// are not in does nothing; one on a person is held once for them, and for us too where it is ours.
pub open spec fn on_key(
    m: ModelView,
    f: FeaturesView,
    target: Seq<char>,
    key: Seq<char>,
    value: Option<Seq<char>>,
) -> Step {
    let target = if target == "*"@ {
        m.me.nick
    } else {
        target
    };
    let folded = f.fold(target);
    if f.is_channel(target) {
        if m.channels.contains_key(folded) {
            let c = m.channels[folded];
            one(
                m.with_channel(
                    folded,
                    ChannelView { metadata: with_key(c.metadata, key, value), ..c },
                ),
                ChangeView::Metadata { target, key },
            )
        } else {
            nothing(m)
        }
    } else {
        let p = m.person_or_named(folded, target);
        let held = m.with_person(
            folded,
            PersonView { metadata: with_key(p.metadata, key, value), ..p },
        );
        let after = if f.same_name(m.me.nick, target) {
            ModelView {
                me: MeView { metadata: with_key(m.me.metadata, key, value), ..m.me },
                ..held
            }
        } else {
            held
        };
        one(after, ChangeView::Metadata { target, key })
    }
}

/// What a metadata line does, where `offset` is the place of its target. A missing value clears the
/// key, and so does a `766`, which says that it is not set.
pub open spec fn on_metadata(m: ModelView, f: FeaturesView, line: LineView, offset: int) -> Step {
    match (line.param(offset), line.param(offset + 1)) {
        (Some(target), Some(key)) => on_key(
            m,
            f,
            target,
            key,
            if line.is("766"@) {
                None
            } else {
                line.param(offset + 3)
            },
        ),
        _ => nothing(m),
    }
}

/// Apply one metadata key to whoever it belongs to.
pub fn metadata(model: &mut Model, features: &Features, line: &Line, offset: usize) -> (r: Vec<
    Change,
>)
    requires
        offset <= usize::MAX - 3,
    ensures
        r.deep_view() == on_metadata(old(model)@, features@, line@, offset as int).changes,
        final(model)@ == on_metadata(old(model)@, features@, line@, offset as int).model,
{
    let (target, key) = match (line.param(offset), line.param(offset + 1)) {
        (Some(target), Some(key)) => (target, key),
        _ => return no_changes(),
    };
    let target = if same(target, "*") {
        model.me().nick.clone()
    } else {
        target.to_owned()
    };
    let value = if line.is("766") {
        None
    } else {
        owned(line.param(offset + 3))
    };
    let folded = features.fold(&target);
    if features.is_channel(&target) {
        return match model.existing_channel_mut(&folded) {
            Some(channel) => {
                set_key(&mut channel.metadata, key, &value);
                one_change(Change::Metadata { target, key: key.to_owned() })
            },
            None => no_changes(),
        };
    }
    let person = model.person_mut(folded, &target);
    set_key(&mut person.metadata, key, &value);
    if features.casemapping().matches(&model.me().nick, &target) {
        let me = model.me_mut();
        set_key(&mut me.metadata, key, &value);
    }
    one_change(Change::Metadata { target, key: key.to_owned() })
}

/// What a change to the one who sent a line does: they are as `p` says, we are too where it is us,
/// and every channel that they are in is reported.
pub open spec fn on_person(m: ModelView, f: FeaturesView, who: Seq<char>, p: PersonView) -> Step {
    let key = f.fold(who);
    let held = m.with_person(key, p);
    let after = if f.same_name(m.me.nick, who) {
        ModelView { me: MeView { away: p.away, account: p.account, ..m.me }, ..held }
    } else {
        held
    };
    Step { model: after, changes: members_changed(m, m.channels_of(key)) }
}

fn report_person(
    model: &mut Model,
    features: &Features,
    who: &str,
    account: Option<String>,
    away: Option<String>,
) -> (r: Vec<Change>)
    ensures
        ({
            let p = PersonView {
                account: account.deep_view(),
                away: away.deep_view(),
                ..old(model)@.person_or_named(features@.fold(who@), who@)
            };
            let step = on_person(old(model)@, features@, who@, p);
            r.deep_view() == step.changes && final(model)@ == step.model
        }),
{
    let key = features.fold(who);
    let ghost start = model@;
    let person = model.person_mut(key.clone(), who);
    person.account = account.clone();
    person.away = away.clone();
    if features.casemapping().matches(&model.me().nick, who) {
        let me = model.me_mut();
        me.away = away;
        me.account = account;
    }
    let channels = model.channels();
    assert(channels.deep_view().len() == channels@.len());
    let ghost order = in_order(start.channels.dom());
    let ghost is_in = |k: Seq<char>| start.channels[k].members.contains_key(key@);
    let ghost name_of = member_change(start);
    let mut out: Vec<Change> = Vec::new();
    let mut i: usize = 0;
    assert(out.deep_view() =~= order.take(0).filter(is_in).map_values(name_of)) by {
        reveal(Seq::filter);
    }
    while i < channels.len()
        invariant
            i <= channels@.len() == order.len(),
            model@.channels == start.channels,
            order == in_order(start.channels.dom()),
            channels.deep_view() == order.map_values(|k: Seq<char>| (k, model@.channels[k])),
            is_in == |k: Seq<char>| start.channels[k].members.contains_key(key@),
            name_of == member_change(start),
            out.deep_view() == order.take(i as int).filter(is_in).map_values(name_of),
        decreases channels@.len() - i,
    {
        let ghost had = out.deep_view();
        let ghost kept = order.take(i as int).filter(is_in);
        proof {
            reveal(Seq::filter);
            assert(order.take(i + 1).drop_last() =~= order.take(i as int));
            assert(channels.deep_view()[i as int] == (
                order[i as int],
                start.channels[order[i as int]],
            ));
        }
        let channel = channels[i].1;
        if channel.members.contains_key(&key) {
            let change = Change::MembersChanged { channel: channel.name.clone() };
            assert(change@ == name_of(order[i as int]));
            out.push(change);
            assert(out.deep_view() =~= had.push(name_of(order[i as int])));
            assert(out.deep_view() =~= kept.push(order[i as int]).map_values(name_of));
        }
        i = i + 1;
    }
    assert(order.take(order.len() as int) =~= order);
    out
}

/// What an AWAY does: its sender goes away with a reason, or comes back where there is none.
pub open spec fn on_away(m: ModelView, f: FeaturesView, line: LineView) -> Step {
    let who = line.sender();
    let held = m.person_or_named(f.fold(who), who);
    on_person(m, f, who, PersonView { away: line.param(0), ..held })
}

/// Note that someone went away or came back.
pub fn away(model: &mut Model, features: &Features, line: &Line) -> (r: Vec<Change>)
    ensures
        r.deep_view() == on_away(old(model)@, features@, line@).changes,
        final(model)@ == on_away(old(model)@, features@, line@).model,
{
    let who = line.sender();
    let account = match model.person(&features.fold(&who)) {
        Some(person) => person.account.clone(),
        None => None,
    };
    report_person(model, features, &who, account, owned(line.param(0)))
}

/// What an ACCOUNT does: its sender logs in, or out where the account is `*` or missing.
pub open spec fn on_account(m: ModelView, f: FeaturesView, line: LineView) -> Step {
    let who = line.sender();
    let held = m.person_or_named(f.fold(who), who);
    let account = match line.param(0) {
        Some(name) => if name == "*"@ {
            None
        } else {
            Some(name)
        },
        None => None,
    };
    on_person(m, f, who, PersonView { account, ..held })
}

/// Note that someone logged in or out of an account.
pub fn account(model: &mut Model, features: &Features, line: &Line) -> (r: Vec<Change>)
    ensures
        r.deep_view() == on_account(old(model)@, features@, line@).changes,
        final(model)@ == on_account(old(model)@, features@, line@).model,
{
    let who = line.sender();
    let away = match model.person(&features.fold(&who)) {
        Some(person) => person.away.clone(),
        None => None,
    };
    let name = match line.param(0) {
        Some(name) => if same(name, "*") {
            None
        } else {
            Some(name.to_owned())
        },
        None => None,
    };
    report_person(model, features, &who, name, away)
}

/// True of the messages that count and that came after an instant. Our own words and history never
/// count.
pub open spec fn counted_after(at: u64) -> spec_fn(MessageView) -> bool {
    |msg: MessageView| !msg.own && !msg.historical && msg.key.time_ms > at
}

/// True of the messages that name someone.
pub open spec fn naming(casemapping: Casemapping, nick: Seq<char>) -> spec_fn(MessageView) -> bool {
    |msg: MessageView| mentioned(casemapping, msg.text, nick)
}

/// True when one of these messages came no later than an instant.
pub open spec fn covers(messages: Seq<MessageView>, at: u64) -> bool {
    exists|i: int| 0 <= i < messages.len() && (#[trigger] messages[i]).key.time_ms <= at
}

/// How many of the messages that were counted are still to be read, where this many of those that
/// are held came after the marker. A marker that covers none of them leaves the count alone.
pub open spec fn still_counted(count: u32, covered: bool, left: nat) -> u32 {
    if covered && left < count {
        left as u32
    } else {
        count
    }
}

/// What is still unread of these messages behind a marker. A marker that is no time covers nothing.
#[verifier::opaque]
pub open spec fn left_unread(
    messages: Seq<MessageView>,
    marker: Seq<char>,
    unread: u32,
) -> u32 {
    match server_time(marker) {
        Some(at) => still_counted(
            unread,
            covers(messages, at),
            messages.filter(counted_after(at)).len(),
        ),
        None => unread,
    }
}

/// What is still unread of these messages behind a marker and names us.
#[verifier::opaque]
pub open spec fn left_mentions(
    messages: Seq<MessageView>,
    marker: Seq<char>,
    mentions: u32,
    casemapping: Casemapping,
    nick: Seq<char>,
) -> u32 {
    match server_time(marker) {
        Some(at) => still_counted(
            mentions,
            covers(messages, at),
            messages.filter(counted_after(at)).filter(naming(casemapping, nick)).len(),
        ),
        None => mentions,
    }
}

/// What a MARKREAD does: the channel, or else the conversation, is read up to the marker, and only
/// what came after it is still unread.
pub open spec fn on_mark_read(m: ModelView, f: FeaturesView, line: LineView) -> Step {
    match (line.param(0), line.param(1)) {
        (Some(target), Some(timestamp)) => {
            let marker = past_prefix(timestamp, "timestamp="@);
            let key = f.fold(target);
            if m.channels.contains_key(key) {
                let c = m.channels[key];
                one(
                    m.with_channel(
                        key,
                        ChannelView {
                            read_marker: Some(marker),
                            unread: left_unread(c.log.in_time(), marker, c.unread),
                            mentions: left_mentions(
                                c.log.in_time(),
                                marker,
                                c.mentions,
                                f.casemapping(),
                                m.me.nick,
                            ),
                            ..c
                        },
                    ),
                    ChangeView::ReadMarker { target },
                )
            } else if m.conversations.contains_key(key) {
                let c = m.conversations[key];
                one(
                    m.with_conversation(
                        key,
                        ConversationView {
                            read_marker: Some(marker),
                            unread: left_unread(c.log.in_time(), marker, c.unread),
                            ..c
                        },
                    ),
                    ChangeView::ReadMarker { target },
                )
            } else {
                nothing(m)
            }
        },
        _ => nothing(m),
    }
}

/// What a marker leaves of the messages in a log.
struct Left {
    covered: bool,
    unread: usize,
    mentions: usize,
}

fn left_after(log: &Log, at: u64, casemapping: Casemapping, nick: &str) -> (r: Left)
    ensures
        r.covered == covers(log@.in_time(), at),
        r.unread == log@.in_time().filter(counted_after(at)).len(),
        r.mentions == log@.in_time().filter(counted_after(at)).filter(
            naming(casemapping, nick@),
        ).len(),
{
    let messages = log.iter();
    let ghost all = log@.in_time();
    let ghost counted = counted_after(at);
    let ghost named = naming(casemapping, nick@);
    let mut r = Left { covered: false, unread: 0, mentions: 0 };
    let mut i: usize = 0;
    assert(all.take(0).filter(counted).filter(named).len() == 0 && all.take(0).filter(counted).len()
        == 0) by {
        reveal(Seq::filter);
    }
    while i < messages.len()
        invariant
            i <= messages@.len() == all.len(),
            all == messages.deep_view(),
            counted == counted_after(at),
            named == naming(casemapping, nick@),
            r.covered == covers(all.take(i as int), at),
            r.unread == all.take(i as int).filter(counted).len(),
            r.mentions == all.take(i as int).filter(counted).filter(named).len(),
            r.mentions <= r.unread <= i,
        decreases messages@.len() - i,
    {
        let message = messages[i];
        let ghost before = all.take(i as int);
        let ghost after = all.take(i + 1);
        proof {
            reveal(Seq::filter);
            assert(after.drop_last() =~= before);
            assert(after.last() == all[i as int] && all[i as int] == message@);
            assert(before.filter(counted).push(message@).drop_last() =~= before.filter(counted));
            if covers(before, at) {
                let j = choose|j: int|
                    0 <= j < before.len() && (#[trigger] before[j]).key.time_ms <= at;
                assert(after[j].key.time_ms <= at);
            }
            if message@.key.time_ms <= at {
                assert(after[i as int].key.time_ms <= at);
            }
            if covers(after, at) && message@.key.time_ms > at {
                let j = choose|j: int|
                    0 <= j < after.len() && (#[trigger] after[j]).key.time_ms <= at;
                assert(before[j].key.time_ms <= at);
            }
        }
        if message.key.time_ms <= at {
            r.covered = true;
        } else if !message.own && !message.historical {
            r.unread = r.unread + 1;
            if mentions(casemapping, &message.text, nick) {
                r.mentions = r.mentions + 1;
            }
        }
        i = i + 1;
    }
    assert(all.take(all.len() as int) =~= all);
    r
}

fn still_to_read(count: u32, covered: bool, left: usize) -> (r: u32)
    ensures
        r == still_counted(count, covered, left as nat),
{
    if covered && left < count as usize {
        left as u32
    } else {
        count
    }
}

/// Record how far the server says we have read, and clear what that covers.
pub fn mark_read(model: &mut Model, features: &Features, line: &Line) -> (r: Vec<Change>)
    ensures
        r.deep_view() == on_mark_read(old(model)@, features@, line@).changes,
        final(model)@ == on_mark_read(old(model)@, features@, line@).model,
{
    let (target, timestamp) = match (line.param(0), line.param(1)) {
        (Some(target), Some(timestamp)) => (target, timestamp),
        _ => return no_changes(),
    };
    proof {
        reveal(left_unread);
        reveal(left_mentions);
    }
    let marker = trim_prefix(timestamp, "timestamp=");
    let at = read_server_time(&marker);
    let key = features.fold(target);
    let nick = model.me().nick.clone();
    if let Some(channel) = model.existing_channel_mut(&key) {
        if let Some(at) = at {
            let left = left_after(&channel.log, at, features.casemapping(), &nick);
            channel.unread = still_to_read(channel.unread, left.covered, left.unread);
            channel.mentions = still_to_read(channel.mentions, left.covered, left.mentions);
        }
        channel.read_marker = Some(marker);
        return one_change(Change::ReadMarker { target: target.to_owned() });
    }
    if let Some(conversation) = model.existing_conversation_mut(&key) {
        if let Some(at) = at {
            let left = left_after(&conversation.log, at, features.casemapping(), &nick);
            conversation.unread = still_to_read(conversation.unread, left.covered, left.unread);
        }
        conversation.read_marker = Some(marker);
        return one_change(Change::ReadMarker { target: target.to_owned() });
    }
    no_changes()
}

/// What a reply says about somebody's account. A plain WHO does not say, which is not the same as
/// nobody.
#[derive(Debug, Clone, PartialEq, Eq)]
pub enum Account {
    /// The reply did not say.
    Unknown,
    /// The reply said they are logged in as nobody.
    LoggedOut,
    /// The reply named an account.
    As(String),
}

/// What a reply says about somebody's account.
pub enum AccountView {
    Unknown,
    LoggedOut,
    As(Seq<char>),
}

impl View for Account {
    type V = AccountView;

    open spec fn view(&self) -> AccountView {
        match self {
            Account::Unknown => AccountView::Unknown,
            Account::LoggedOut => AccountView::LoggedOut,
            Account::As(name) => AccountView::As(name@),
        }
    }
}

/// What one WHO or WHOX row says about somebody.
#[derive(Debug, Clone, PartialEq, Eq)]
pub struct WhoRow {
    /// The channel the row is for.
    pub channel: String,
    /// Their nick.
    pub nick: String,
    /// Their username.
    pub user: String,
    /// Their host.
    pub host: String,
    /// Whether they are away, an operator or a bot, and their prefixes.
    pub flags: String,
    /// Their account.
    pub account: Account,
    /// Their realname, when the row carries one.
    pub realname: Option<String>,
}

/// What one WHO or WHOX row says.
#[verifier::ext_equal]
pub struct WhoRowView {
    pub channel: Seq<char>,
    pub nick: Seq<char>,
    pub user: Seq<char>,
    pub host: Seq<char>,
    pub flags: Seq<char>,
    pub account: AccountView,
    pub realname: Option<Seq<char>>,
}

impl View for WhoRow {
    type V = WhoRowView;

    open spec fn view(&self) -> WhoRowView {
        WhoRowView {
            channel: self.channel@,
            nick: self.nick@,
            user: self.user@,
            host: self.host@,
            flags: self.flags@,
            account: self.account@,
            realname: self.realname.deep_view(),
        }
    }
}

/// True of the characters that are membership prefixes.
pub open spec fn is_prefix(pairs: Seq<(char, char)>) -> spec_fn(char) -> bool {
    |c: char| prefix_rank(pairs, c) is Some
}

fn keep_prefixes(prefix: &Prefix, flags: &str) -> (r: String)
    ensures
        r@ == flags@.filter(is_prefix(prefix@)),
{
    let chars = chars_of(flags);
    let ghost keep = is_prefix(prefix@);
    let mut out: Vec<char> = Vec::new();
    let mut i: usize = 0;
    assert(out@ =~= chars@.take(0).filter(keep)) by {
        reveal(Seq::filter);
    }
    while i < chars.len()
        invariant
            i <= chars@.len(),
            keep == is_prefix(prefix@),
            out@ == chars@.take(i as int).filter(keep),
        decreases chars@.len() - i,
    {
        proof {
            reveal(Seq::filter);
            assert(chars@.take(i + 1).drop_last() =~= chars@.take(i as int));
        }
        if prefix.rank(chars[i]).is_some() {
            out.push(chars[i]);
        }
        i = i + 1;
    }
    assert(chars@.take(chars@.len() as int) =~= chars@);
    string_of(&out)
}

/// What is known of somebody once a row was read. A row says only whether they are away and never
/// why, so a reason that is known is kept.
pub open spec fn person_with_row(held: PersonView, row: WhoRowView) -> PersonView {
    PersonView {
        nick: row.nick,
        username: Some(row.user),
        host: Some(row.host),
        operator: row.flags.contains('*'),
        bot: row.flags.contains('B'),
        realname: match row.realname {
            Some(realname) => Some(realname),
            None => held.realname,
        },
        away: if row.flags.len() > 0 && row.flags[0] == 'G' {
            match held.away {
                Some(reason) => Some(reason),
                None => Some(Seq::empty()),
            }
        } else {
            None
        },
        account: match row.account {
            AccountView::Unknown => held.account,
            AccountView::LoggedOut => None,
            AccountView::As(name) => Some(name),
        },
        ..held
    }
}

/// What a WHO or WHOX row does: to the person, and to their membership where it names a channel
/// that we are in.
pub open spec fn on_row(m: ModelView, f: FeaturesView, row: WhoRowView) -> Step {
    let key = f.fold(row.nick);
    let after = m.with_person(key, person_with_row(m.person_or_named(key, row.nick), row));
    let folded = f.fold(row.channel);
    if !f.is_channel(row.channel) || !m.channels.contains_key(folded) {
        nothing(after)
    } else {
        let c = m.channels[folded];
        let prefixes = row.flags.filter(is_prefix(f.prefix));
        one(
            after.with_channel(
                folded,
                ChannelView { members: c.members.insert(key, MembershipView { prefixes }), ..c },
            ),
            ChangeView::MembersChanged { channel: row.channel },
        )
    }
}

/// Fold one WHO or WHOX row into the person and, when it names a channel, their membership.
pub fn apply_who(model: &mut Model, features: &Features, row: WhoRow) -> (r: Vec<Change>)
    ensures
        r.deep_view() == on_row(old(model)@, features@, row@).changes,
        final(model)@ == on_row(old(model)@, features@, row@).model,
{
    let key = features.fold(&row.nick);
    let prefixes = keep_prefixes(features.prefix(), &row.flags);
    let away = match crate::text::first_char(&row.flags) {
        Some(c) => c == 'G',
        None => false,
    };
    let person = model.person_mut(key.clone(), &row.nick);
    person.nick = row.nick.clone();
    person.username = Some(row.user.clone());
    person.host = Some(row.host.clone());
    person.operator = contains_char(&row.flags, '*');
    person.bot = contains_char(&row.flags, 'B');
    if let Some(realname) = &row.realname {
        person.realname = Some(realname.clone());
    }
    if away {
        if person.away.is_none() {
            person.away = Some(String::new());
        }
    } else {
        person.away = None;
    }
    match &row.account {
        Account::Unknown => {},
        Account::LoggedOut => {
            person.account = None;
        },
        Account::As(name) => {
            person.account = Some(name.clone());
        },
    }
    if !features.is_channel(&row.channel) {
        return no_changes();
    }
    match model.existing_channel_mut(&features.fold(&row.channel)) {
        Some(entry) => {
            let _ = entry.members.insert(key, Membership { prefixes });
            one_change(Change::MembersChanged { channel: row.channel })
        },
        None => no_changes(),
    }
}

/// The row in a plain WHO reply. Its last parameter is a hop count and the realname.
pub open spec fn who_row(line: LineView) -> Option<WhoRowView> {
    match (line.param(1), line.param(2), line.param(3), line.param(5), line.param(6)) {
        (Some(channel), Some(user), Some(host), Some(nick), Some(flags)) => Some(
            WhoRowView {
                channel,
                nick,
                user,
                host,
                flags,
                account: AccountView::Unknown,
                realname: match cut(line.trailing_or_empty(), ' ') {
                    Some((_, realname)) => Some(realname),
                    None => None,
                },
            },
        ),
        _ => None,
    }
}

/// The row in a WHOX reply that carries our own token. An account of `0` or `*` is none.
pub open spec fn whox_row(line: LineView) -> Option<WhoRowView> {
    match (
        line.param(1),
        line.param(2),
        line.param(3),
        line.param(4),
        line.param(5),
        line.param(6),
        line.param(7),
    ) {
        (
            Some(token),
            Some(channel),
            Some(user),
            Some(host),
            Some(nick),
            Some(flags),
            Some(account),
        ) => if token != "332"@ {
            None
        } else {
            Some(
                WhoRowView {
                    channel,
                    nick,
                    user,
                    host,
                    flags,
                    account: if account == "0"@ || account == "*"@ {
                        AccountView::LoggedOut
                    } else {
                        AccountView::As(account)
                    },
                    realname: line.param(8),
                },
            )
        },
        _ => None,
    }
}

/// What a WHO or WHOX reply does: what its row does.
pub open spec fn on_reply_row(m: ModelView, f: FeaturesView, row: Option<WhoRowView>) -> Step {
    match row {
        Some(row) => on_row(m, f, row),
        None => nothing(m),
    }
}

/// Apply a plain WHO reply.
pub fn who_reply(model: &mut Model, features: &Features, line: &Line) -> (r: Vec<Change>)
    ensures
        r.deep_view() == on_reply_row(old(model)@, features@, who_row(line@)).changes,
        final(model)@ == on_reply_row(old(model)@, features@, who_row(line@)).model,
{
    match (line.param(1), line.param(2), line.param(3), line.param(5), line.param(6)) {
        (Some(channel), Some(user), Some(host), Some(nick), Some(flags)) => {
            let realname = match split_once(&or_empty(line.trailing()), ' ') {
                Some((_, realname)) => Some(realname),
                None => None,
            };
            let row = WhoRow {
                channel: channel.to_owned(),
                nick: nick.to_owned(),
                user: user.to_owned(),
                host: host.to_owned(),
                flags: flags.to_owned(),
                account: Account::Unknown,
                realname,
            };
            apply_who(model, features, row)
        },
        _ => no_changes(),
    }
}

/// Apply a WHOX reply, which is the same information plus the account.
pub fn whox_reply(model: &mut Model, features: &Features, line: &Line) -> (r: Vec<Change>)
    ensures
        r.deep_view() == on_reply_row(old(model)@, features@, whox_row(line@)).changes,
        final(model)@ == on_reply_row(old(model)@, features@, whox_row(line@)).model,
{
    match line.param(1) {
        Some(token) => if !same(token, "332") {
            return no_changes();
        },
        None => return no_changes(),
    }
    match (
        line.param(2),
        line.param(3),
        line.param(4),
        line.param(5),
        line.param(6),
        line.param(7),
    ) {
        (Some(channel), Some(user), Some(host), Some(nick), Some(flags), Some(account)) => {
            let account = if same(account, "0") || same(account, "*") {
                Account::LoggedOut
            } else {
                Account::As(account.to_owned())
            };
            let row = WhoRow {
                channel: channel.to_owned(),
                nick: nick.to_owned(),
                user: user.to_owned(),
                host: host.to_owned(),
                flags: flags.to_owned(),
                account,
                realname: owned(line.param(8)),
            };
            apply_who(model, features, row)
        },
        _ => no_changes(),
    }
}

/// The named modes after one `+name[=param]` or `-name`. A removal may carry the parameter that it
/// removes, which is no part of the name.
pub open spec fn with_named(
    modes: Map<Seq<char>, Option<Seq<char>>>,
    entry: Seq<char>,
) -> Map<Seq<char>, Option<Seq<char>>> {
    match without_prefix(entry, '+') {
        Some(rest) => match cut(rest, '=') {
            Some((name, param)) => modes.insert(name, Some(param)),
            None => modes.insert(rest, None),
        },
        None => match without_prefix(entry, '-') {
            Some(rest) => modes.remove(before_first(rest, '=')),
            None => modes,
        },
    }
}

/// The named modes after these entries, one after another.
pub open spec fn with_all_named(
    modes: Map<Seq<char>, Option<Seq<char>>>,
    entries: Seq<Seq<char>>,
) -> Map<Seq<char>, Option<Seq<char>>>
    decreases entries.len(),
{
    if entries.len() == 0 {
        modes
    } else {
        with_named(with_all_named(modes, entries.drop_last()), entries.last())
    }
}

/// What named mode entries do to a channel that we are in.
pub open spec fn on_named(
    m: ModelView,
    f: FeaturesView,
    target: Seq<char>,
    entries: Seq<Seq<char>>,
) -> Step {
    let folded = f.fold(target);
    if m.channels.contains_key(folded) {
        let c = m.channels[folded];
        one(
            m.with_channel(
                folded,
                ChannelView { named_modes: with_all_named(c.named_modes, entries), ..c },
            ),
            ChangeView::ModesChanged { channel: target },
        )
    } else {
        nothing(m)
    }
}

fn set_named(modes: &mut SortedMap<String, Option<String>>, entry: &str)
    ensures
        final(modes)@ == with_named(old(modes)@, entry@),
{
    if let Some(rest) = strip_char(entry, '+') {
        match split_once(&rest, '=') {
            Some((name, param)) => {
                let _ = modes.insert(name, Some(param));
            },
            None => {
                let _ = modes.insert(rest, None);
            },
        }
    } else if let Some(rest) = strip_char(entry, '-') {
        let _ = modes.remove(&take_before(&rest, '='));
    }
}

/// Fold `+name[=param]` and `-name` entries into a channel's named modes.
pub fn apply_named(model: &mut Model, features: &Features, target: &str, entries: &Vec<String>) -> (r:
    Vec<Change>)
    ensures
        r.deep_view() == on_named(old(model)@, features@, target@, entries.deep_view()).changes,
        final(model)@ == on_named(old(model)@, features@, target@, entries.deep_view()).model,
{
    match model.existing_channel_mut(&features.fold(target)) {
        None => no_changes(),
        Some(channel) => {
            let ghost start = channel@;
            let ghost all = entries.deep_view();
            let ghost after = *final(channel);
            let mut i: usize = 0;
            while i < entries.len()
                invariant
                    i <= entries@.len(),
                    all == entries.deep_view(),
                    *final(channel) == after,
                    channel@ == (ChannelView {
                        named_modes: with_all_named(start.named_modes, all.take(i as int)),
                        ..start
                    }),
                decreases entries@.len() - i,
            {
                assert(all.take(i + 1).drop_last() =~= all.take(i as int));
                set_named(&mut channel.named_modes, &entries[i]);
                i = i + 1;
            }
            assert(all.take(all.len() as int) =~= all);
            one_change(Change::ModesChanged { channel: target.to_owned() })
        },
    }
}

/// What a PROP does: what its entries do.
pub open spec fn on_prop(m: ModelView, f: FeaturesView, line: LineView) -> Step {
    match line.param(0) {
        Some(target) => on_named(m, f, target, line.params.skip(1)),
        None => nothing(m),
    }
}

/// Apply a named mode change.
pub fn prop(model: &mut Model, features: &Features, line: &Line) -> (r: Vec<Change>)
    ensures
        r.deep_view() == on_prop(old(model)@, features@, line@).changes,
        final(model)@ == on_prop(old(model)@, features@, line@).model,
{
    match line.param(0) {
        Some(target) => {
            let entries = copy_strings(&line.params, 1, line.params.len());
            assert(entries.deep_view() =~= line@.params.skip(1));
            apply_named(model, features, target, &entries)
        },
        None => no_changes(),
    }
}

/// Each entry with a `+` before it.
pub open spec fn all_set(entries: Seq<Seq<char>>) -> Seq<Seq<char>> {
    entries.map_values(|e: Seq<char>| seq!['+'] + e)
}

/// What a PROP listing does: every word after its target is set.
pub open spec fn on_prop_list(m: ModelView, f: FeaturesView, line: LineView) -> Step {
    match line.param(1) {
        Some(target) => on_named(m, f, target, all_set(all_words(line.params.skip(2)))),
        None => nothing(m),
    }
}

/// Apply one line of a PROP listing, which reports state rather than a change.
pub fn prop_list(model: &mut Model, features: &Features, line: &Line) -> (r: Vec<Change>)
    ensures
        r.deep_view() == on_prop_list(old(model)@, features@, line@).changes,
        final(model)@ == on_prop_list(old(model)@, features@, line@).model,
{
    let target = match line.param(1) {
        Some(target) => target,
        None => return no_changes(),
    };
    let names = words_of(&line.params, 2);
    let ghost all = all_set(names.deep_view());
    let mut entries: Vec<String> = Vec::new();
    let mut i: usize = 0;
    while i < names.len()
        invariant
            i <= names@.len(),
            all == all_set(names.deep_view()),
            entries.deep_view() == all.take(i as int),
        decreases names@.len() - i,
    {
        let ghost had = entries.deep_view();
        let mut entry = String::new();
        entry.push('+');
        entry.append(&names[i]);
        assert(entry@ =~= all[i as int]);
        entries.push(entry);
        assert(entries.deep_view() =~= had.push(all[i as int]));
        i = i + 1;
        assert(entries.deep_view() =~= all.take(i as int));
    }
    assert(all.take(all.len() as int) =~= all);
    apply_named(model, features, target, &entries)
}

/// Our user modes after one change.
pub open spec fn with_user_mode(modes: Seq<char>, change: ModeChangeView) -> Seq<char> {
    if !change.set {
        revoked(modes, change.mode)
    } else if modes.contains(change.mode) {
        modes
    } else {
        modes.push(change.mode)
    }
}

/// Our user modes after these changes, one after another.
pub open spec fn with_user_modes(modes: Seq<char>, changes: Seq<ModeChangeView>) -> Seq<char>
    decreases changes.len(),
{
    if changes.len() == 0 {
        modes
    } else {
        with_user_mode(with_user_modes(modes, changes.drop_last()), changes.last())
    }
}

/// A model, and whether the changes so far touched any member.
#[verifier::ext_equal]
pub struct ModeStep {
    pub model: ModelView,
    pub touched: bool,
}

/// What one mode change does to a channel. A membership letter moves a prefix of the member that it
/// names, and any other letter is set or unset on the channel.
pub open spec fn with_mode(
    s: ModeStep,
    f: FeaturesView,
    folded: Seq<char>,
    change: ModeChangeView,
) -> ModeStep {
    let m = s.model;
    if !m.channels.contains_key(folded) {
        s
    } else {
        let c = m.channels[folded];
        if change.membership {
            match (change.arg, prefix_granted(f.prefix, change.mode)) {
                (Some(nick), Some(prefix)) => {
                    let key = f.fold(nick);
                    if c.members.contains_key(key) {
                        let held = c.members[key].prefixes;
                        let prefixes = if change.set {
                            granted(f.prefix, held, prefix)
                        } else {
                            revoked(held, prefix)
                        };
                        ModeStep {
                            model: m.with_channel(
                                folded,
                                ChannelView {
                                    members: c.members.insert(key, MembershipView { prefixes }),
                                    ..c
                                },
                            ),
                            touched: true,
                        }
                    } else {
                        s
                    }
                },
                _ => s,
            }
        } else {
            let modes = if change.set {
                c.modes.insert(change.mode, change.arg)
            } else {
                c.modes.remove(change.mode)
            };
            ModeStep { model: m.with_channel(folded, ChannelView { modes, ..c }), touched: s.touched }
        }
    }
}

/// What these mode changes do to a channel, one after another.
pub open spec fn with_modes(
    m: ModelView,
    f: FeaturesView,
    folded: Seq<char>,
    changes: Seq<ModeChangeView>,
) -> ModeStep
    decreases changes.len(),
{
    if changes.len() == 0 {
        ModeStep { model: m, touched: false }
    } else {
        with_mode(with_modes(m, f, folded, changes.drop_last()), f, folded, changes.last())
    }
}

/// What a MODE does: to us where its target is no channel, and to the channel where it is.
pub open spec fn on_mode(m: ModelView, f: FeaturesView, line: LineView) -> Step {
    match line.param(0) {
        None => nothing(m),
        Some(target) => if !f.is_channel(target) {
            let modes = with_user_modes(m.me.modes, user_modes(line.param_or_empty(1), true));
            nothing(ModelView { me: MeView { modes, ..m.me }, ..m })
        } else {
            let s = with_modes(m, f, f.fold(target), f.channel_modes(line.params.skip(1)));
            Step {
                model: s.model,
                changes: if s.touched {
                    seq![
                        ChangeView::ModesChanged { channel: target },
                        ChangeView::MembersChanged { channel: target },
                    ]
                } else {
                    seq![ChangeView::ModesChanged { channel: target }]
                },
            }
        },
    }
}

/// Apply user mode changes to ours.
pub fn apply_user_modes(model: &mut Model, changes: &Vec<ModeChange>)
    ensures
        final(model)@ == (ModelView {
            me: MeView {
                modes: with_user_modes(old(model)@.me.modes, changes.deep_view()),
                ..old(model)@.me
            },
            ..old(model)@
        }),
{
    let ghost start = model@;
    let ghost all = changes.deep_view();
    let mut i: usize = 0;
    while i < changes.len()
        invariant
            i <= changes@.len(),
            all == changes.deep_view(),
            model@ == (ModelView {
                me: MeView {
                    modes: with_user_modes(start.me.modes, all.take(i as int)),
                    ..start.me
                },
                ..start
            }),
        decreases changes@.len() - i,
    {
        assert(all.take(i + 1).drop_last() =~= all.take(i as int));
        assert(all[i as int] == changes@[i as int]@);
        let mode = changes[i].mode;
        let me = model.me_mut();
        if changes[i].set {
            if !contains_char(&me.modes, mode) {
                me.modes.push(mode);
            }
        } else {
            me.modes = remove_char(&me.modes, mode);
        }
        i = i + 1;
    }
    assert(all.take(all.len() as int) =~= all);
}

fn apply_mode(model: &mut Model, features: &Features, folded: &CaseFolded, change: &ModeChange) -> (r:
    bool)
    ensures
        ({
            let s = with_mode(
                (ModeStep { model: old(model)@, touched: false }),
                features@,
                folded@,
                change@,
            );
            final(model)@ == s.model && r == s.touched
        }),
{
    let order = features.prefix();
    match model.existing_channel_mut(folded) {
        None => false,
        Some(channel) => {
            let ghost had = channel@;
            if change.membership {
                if let Some(nick) = &change.arg {
                    if let Some(prefix) = order.char_for_mode(change.mode) {
                        let key = features.fold(nick);
                        if let Some(member) = channel.members.get_mut(&key) {
                            if change.set {
                                member.grant(prefix, order);
                            } else {
                                member.revoke(prefix);
                            }
                            return true;
                        }
                    }
                }
                assert(old(model)@.channels.insert(folded@, had) =~= old(model)@.channels);
                false
            } else {
                if change.set {
                    let _ = channel.modes.insert(change.mode, change.arg.clone());
                } else {
                    let _ = channel.modes.remove(&change.mode);
                }
                false
            }
        },
    }
}

proof fn lemma_touched(s: ModeStep, f: FeaturesView, folded: Seq<char>, change: ModeChangeView)
    ensures
        ({
            let fresh = with_mode(
                (ModeStep { model: s.model, touched: false }),
                f,
                folded,
                change,
            );
            let after = with_mode(s, f, folded, change);
            after.model == fresh.model && after.touched == (s.touched || fresh.touched)
        }),
{
}

/// Apply mode changes to a channel. True when they touched a member.
pub fn apply_modes(
    model: &mut Model,
    features: &Features,
    folded: &CaseFolded,
    changes: &Vec<ModeChange>,
) -> (r: bool)
    ensures
        ({
            let s = with_modes(old(model)@, features@, folded@, changes.deep_view());
            final(model)@ == s.model && r == s.touched
        }),
{
    let ghost start = model@;
    let ghost all = changes.deep_view();
    let mut touched: bool = false;
    let mut i: usize = 0;
    while i < changes.len()
        invariant
            i <= changes@.len(),
            all == changes.deep_view(),
            (ModeStep { model: model@, touched }) == with_modes(
                start,
                features@,
                folded@,
                all.take(i as int),
            ),
        decreases changes@.len() - i,
    {
        assert(all.take(i + 1).drop_last() =~= all.take(i as int));
        assert(all[i as int] == changes@[i as int]@);
        proof {
            lemma_touched(
                with_modes(start, features@, folded@, all.take(i as int)),
                features@,
                folded@,
                all[i as int],
            );
        }
        let moved = apply_mode(model, features, folded, &changes[i]);
        touched = touched || moved;
        i = i + 1;
    }
    assert(all.take(all.len() as int) =~= all);
    touched
}

/// Apply a MODE.
pub fn mode(model: &mut Model, features: &Features, line: &Line) -> (r: Vec<Change>)
    ensures
        r.deep_view() == on_mode(old(model)@, features@, line@).changes,
        final(model)@ == on_mode(old(model)@, features@, line@).model,
{
    let target = match line.param(0) {
        Some(target) => target,
        None => return no_changes(),
    };
    if !features.is_channel(target) {
        let changes = crate::isupport::parse_user_modes(&or_empty(line.param(1)));
        apply_user_modes(model, &changes);
        return no_changes();
    }
    let args = copy_strings(&line.params, 1, line.params.len());
    assert(args.deep_view() =~= line@.params.skip(1));
    let changes = features.parse_channel_modes(&args);
    let touched = apply_modes(model, features, &features.fold(target), &changes);
    let mut out = one_change(Change::ModesChanged { channel: target.to_owned() });
    if touched {
        let change = Change::MembersChanged { channel: target.to_owned() };
        let ghost had = out.deep_view();
        out.push(change);
        assert(out.deep_view() =~= had.push(change@));
    }
    assert(out.deep_view() =~= on_mode(old(model)@, features@, line@).changes);
    out
}

/// What a line that is no message does.
pub open spec fn on_event(m: ModelView, f: FeaturesView, line: LineView) -> Step {
    let command = upper(line.command);
    if command == "JOIN"@ {
        on_join(m, f, line)
    } else if command == "PART"@ {
        on_part(m, f, line)
    } else if command == "QUIT"@ {
        on_quit(m, f, line)
    } else if command == "KICK"@ {
        on_kick(m, f, line)
    } else if command == "NICK"@ {
        on_nick(m, f, line)
    } else if command == "TOPIC"@ {
        on_topic(m, f, line)
    } else if command == "MODE"@ {
        on_mode(m, f, line)
    } else if command == "332"@ {
        on_topic_reply(m, f, line)
    } else if command == "MARKREAD"@ {
        on_mark_read(m, f, line)
    } else if command == "REDACT"@ {
        on_redact(m, f, line)
    } else if command == "AWAY"@ {
        on_away(m, f, line)
    } else if command == "ACCOUNT"@ {
        on_account(m, f, line)
    } else if command == "METADATA"@ {
        on_metadata(m, f, line, 0)
    } else if command == "760"@ || command == "761"@ || command == "766"@ {
        on_metadata(m, f, line, 1)
    } else if command == "353"@ {
        on_names(m, f, line)
    } else if command == "352"@ {
        on_reply_row(m, f, who_row(line))
    } else if command == "354"@ {
        on_reply_row(m, f, whox_row(line))
    } else if command == "PROP"@ {
        on_prop(m, f, line)
    } else if command == "961"@ {
        on_prop_list(m, f, line)
    } else {
        nothing(m)
    }
}

/// True for a line that carries a message.
pub open spec fn is_message(line: LineView) -> bool {
    let command = upper(line.command);
    command == "PRIVMSG"@ || command == "NOTICE"@ || command == "TAGMSG"@
}

/// What a line does.
pub open spec fn on_line(
    m: ModelView,
    f: FeaturesView,
    latest_ms: u64,
    historical: bool,
    line: LineView,
) -> Outcome {
    if is_message(line) {
        on_message(m, f, latest_ms, historical, line, upper(line.command))
    } else {
        let step = on_event(m, f, line);
        Outcome { model: step.model, latest_ms, changes: step.changes }
    }
}

fn apply_event(model: &mut Model, features: &Features, line: &Line, command: &str) -> (r: Vec<Change>)
    requires
        command@ == upper(line@.command),
    ensures
        r.deep_view() == on_event(old(model)@, features@, line@).changes,
        final(model)@ == on_event(old(model)@, features@, line@).model,
{
    if same(command, "JOIN") {
        join(model, features, line)
    } else if same(command, "PART") {
        part(model, features, line)
    } else if same(command, "QUIT") {
        quit(model, features, line)
    } else if same(command, "KICK") {
        kick(model, features, line)
    } else if same(command, "NICK") {
        nick(model, features, line)
    } else if same(command, "TOPIC") {
        topic(model, features, line)
    } else if same(command, "MODE") {
        mode(model, features, line)
    } else if same(command, "332") {
        topic_reply(model, features, line)
    } else if same(command, "MARKREAD") {
        mark_read(model, features, line)
    } else if same(command, "REDACT") {
        redact(model, features, line)
    } else if same(command, "AWAY") {
        away(model, features, line)
    } else if same(command, "ACCOUNT") {
        account(model, features, line)
    } else if same(command, "METADATA") {
        metadata(model, features, line, 0)
    } else if same(command, "760") || same(command, "761") || same(command, "766") {
        metadata(model, features, line, 1)
    } else if same(command, "353") {
        names(model, features, line)
    } else if same(command, "352") {
        who_reply(model, features, line)
    } else if same(command, "354") {
        whox_reply(model, features, line)
    } else if same(command, "PROP") {
        prop(model, features, line)
    } else if same(command, "961") {
        prop_list(model, features, line)
    } else {
        no_changes()
    }
}

/// Fold one line into the model, returning what changed. `latest_ms` is the latest time seen, which
/// stamps a line that carries none.
pub fn apply(
    model: &mut Model,
    features: &Features,
    latest_ms: &mut u64,
    historical: bool,
    line: &Line,
) -> (r: Vec<Change>)
    ensures
        ({
            let o = on_line(old(model)@, features@, *old(latest_ms), historical, line@);
            &&& r.deep_view() == o.changes
            &&& final(model)@ == o.model
            &&& *final(latest_ms) == o.latest_ms
        }),
{
    let command = to_upper(&line.command);
    if same(&command, "PRIVMSG") || same(&command, "NOTICE") || same(&command, "TAGMSG") {
        message(model, features, latest_ms, historical, line, &command)
    } else {
        apply_event(model, features, line, &command)
    }
}

/// Naming the members of a channel touches no other channel, and nothing of this one but who is
/// in it.
proof fn lemma_entries(m: ModelView, f: FeaturesView, folded: Seq<char>, entries: Seq<Seq<char>>)
    requires
        m.channels.contains_key(folded),
    ensures
        ({
            let after = with_entries(m, f, folded, entries);
            &&& after.channels.dom() =~= m.channels.dom()
            &&& forall|k: Seq<char>| #[trigger]
                m.channels.contains_key(k) ==> after.channels[k] == (ChannelView {
                    members: after.channels[k].members,
                    ..m.channels[k]
                })
            &&& after.conversations == m.conversations
        }),
    decreases entries.len(),
{
    if entries.len() > 0 {
        lemma_entries(m, f, folded, entries.drop_last());
    }
}

/// Changing the modes of a channel touches no other channel, and nothing of this one but its modes
/// and the ranks of its members.
proof fn lemma_modes(
    m: ModelView,
    f: FeaturesView,
    folded: Seq<char>,
    changes: Seq<ModeChangeView>,
)
    ensures
        ({
            let after = with_modes(m, f, folded, changes).model;
            &&& after.channels.dom() =~= m.channels.dom()
            &&& forall|k: Seq<char>| #[trigger]
                m.channels.contains_key(k) ==> after.channels[k] == (ChannelView {
                    members: after.channels[k].members,
                    modes: after.channels[k].modes,
                    ..m.channels[k]
                })
            &&& after.conversations == m.conversations
        }),
    decreases changes.len(),
{
    if changes.len() > 0 {
        lemma_modes(m, f, folded, changes.drop_last());
    }
}

/// A marker makes nothing unread.
proof fn lemma_left(m: ModelView, f: FeaturesView, line: LineView, key: Seq<char>)
    requires
        m.channels.contains_key(key),
    ensures
        ({
            let after = on_mark_read(m, f, line).model.channels[key];
            &&& after.unread <= m.channels[key].unread
            &&& after.mentions <= m.channels[key].mentions
            &&& after.log == m.channels[key].log
        }),
{
    reveal(left_unread);
    reveal(left_mentions);
}

/// What a line that is no message leaves of a channel that it does not take from us.
#[verifier::rlimit(60)]
#[verifier::spinoff_prover]
proof fn lemma_event(m: ModelView, f: FeaturesView, line: LineView, key: Seq<char>)
    requires
        m.channels.contains_key(key),
        on_event(m, f, line).model.channels.contains_key(key),
    ensures
        ({
            let before = m.channels[key];
            let after = on_event(m, f, line).model.channels[key];
            &&& after.unread <= before.unread
            &&& after.mentions <= before.mentions
            &&& upper(line.command) != "REDACT"@ ==> after.log == before.log
        }),
{
    let command = upper(line.command);
    lemma_left(m, f, line, key);
    if command == "353"@ && line.param(2) is Some && m.channels.contains_key(
        f.fold(line.param(2)->0),
    ) {
        lemma_entries(m, f, f.fold(line.param(2)->0), words(line.trailing_or_empty()));
    }
    if command == "MODE"@ && line.param(0) is Some {
        lemma_modes(m, f, f.fold(line.param(0)->0), f.channel_modes(line.params.skip(1)));
    }
}

/// Only our own join puts a channel into the model. A message, a list of names, a topic or a mode
/// of a channel that we are not in does not.
#[verifier::rlimit(60)]
#[verifier::spinoff_prover]
pub proof fn law_only_our_join_adds_a_channel(
    m: ModelView,
    f: FeaturesView,
    latest_ms: u64,
    historical: bool,
    line: LineView,
    key: Seq<char>,
)
    requires
        !m.channels.contains_key(key),
        on_line(m, f, latest_ms, historical, line).model.channels.contains_key(key),
    ensures
        upper(line.command) == "JOIN"@,
        f.same_name(m.me.nick, line.sender()),
        line.param(0) is Some && key == f.fold(line.param(0)->0),
{
    let command = upper(line.command);
    if command == "353"@ && line.param(2) is Some && m.channels.contains_key(
        f.fold(line.param(2)->0),
    ) {
        lemma_entries(m, f, f.fold(line.param(2)->0), words(line.trailing_or_empty()));
    }
    if command == "MODE"@ && line.param(0) is Some {
        lemma_modes(m, f, f.fold(line.param(0)->0), f.channel_modes(line.params.skip(1)));
    }
}

/// Only our own leaving, of our own will or by a kick, takes a channel out of the model.
#[verifier::rlimit(60)]
#[verifier::spinoff_prover]
pub proof fn law_only_our_leaving_drops_a_channel(
    m: ModelView,
    f: FeaturesView,
    latest_ms: u64,
    historical: bool,
    line: LineView,
    key: Seq<char>,
)
    requires
        m.channels.contains_key(key),
        !on_line(m, f, latest_ms, historical, line).model.channels.contains_key(key),
    ensures
        line.param(0) is Some && key == f.fold(line.param(0)->0),
        upper(line.command) == "PART"@ && f.same_name(m.me.nick, line.sender()) || upper(
            line.command,
        ) == "KICK"@ && line.param(1) is Some && f.same_name(m.me.nick, line.param(1)->0),
{
    let command = upper(line.command);
    if command == "353"@ && line.param(2) is Some && m.channels.contains_key(
        f.fold(line.param(2)->0),
    ) {
        lemma_entries(m, f, f.fold(line.param(2)->0), words(line.trailing_or_empty()));
    }
    if command == "MODE"@ && line.param(0) is Some {
        lemma_modes(m, f, f.fold(line.param(0)->0), f.channel_modes(line.params.skip(1)));
    }
}

/// What was said in a channel stays as it was said, whatever happens around it: only a message
/// adds to it, and only a redaction withdraws from it.
pub proof fn law_what_was_said_stays(
    m: ModelView,
    f: FeaturesView,
    latest_ms: u64,
    historical: bool,
    line: LineView,
    key: Seq<char>,
)
    requires
        m.channels.contains_key(key),
        on_line(m, f, latest_ms, historical, line).model.channels.contains_key(key),
        !is_message(line),
        upper(line.command) != "REDACT"@,
    ensures
        on_line(m, f, latest_ms, historical, line).model.channels[key].log == m.channels[key].log,
{
    lemma_event(m, f, line, key);
}

/// A marker clears what it covers and nothing else: where it covers every message that counts,
/// nothing is left unread, and where it covers no message, what was counted still is.
pub proof fn law_marker_clears_what_it_covers(
    messages: Seq<MessageView>,
    marker: Seq<char>,
    at: u64,
    unread: u32,
    mentions: u32,
    casemapping: Casemapping,
    nick: Seq<char>,
)
    requires
        server_time(marker) == Some(at),
    ensures
        covers(messages, at) && (forall|i: int|
            0 <= i < messages.len() ==> !counted_after(at)(#[trigger] messages[i])) ==> left_unread(
            messages,
            marker,
            unread,
        ) == 0 && left_mentions(messages, marker, mentions, casemapping, nick) == 0,
        !covers(messages, at) ==> left_unread(messages, marker, unread) == unread && left_mentions(
            messages,
            marker,
            mentions,
            casemapping,
            nick,
        ) == mentions,
        left_unread(messages, marker, unread) <= unread,
        left_mentions(messages, marker, mentions, casemapping, nick) <= mentions,
{
    reveal(left_unread);
    reveal(left_mentions);
    if forall|i: int| 0 <= i < messages.len() ==> !counted_after(at)(#[trigger] messages[i]) {
        lemma_filter_none(messages, counted_after(at));
        reveal(Seq::filter);
    }
}

/// Filtering drops everything where nothing passes.
proof fn lemma_filter_none(s: Seq<MessageView>, keep: spec_fn(MessageView) -> bool)
    requires
        forall|i: int| 0 <= i < s.len() ==> !keep(#[trigger] s[i]),
    ensures
        s.filter(keep) == Seq::<MessageView>::empty(),
    decreases s.len(),
{
    reveal(Seq::filter);
    if s.len() > 0 {
        lemma_filter_none(s.drop_last(), keep);
    }
}

/// Our own words, history that is replayed, and lines that are no messages never make a channel
/// unread, nor count as a mention.
pub proof fn law_own_words_and_history_are_never_unread(
    m: ModelView,
    f: FeaturesView,
    latest_ms: u64,
    historical: bool,
    line: LineView,
    key: Seq<char>,
)
    requires
        historical || f.same_name(m.me.nick, line.sender()) || !is_message(line),
        m.channels.contains_key(key),
        on_line(m, f, latest_ms, historical, line).model.channels.contains_key(key),
    ensures
        ({
            let after = on_line(m, f, latest_ms, historical, line).model.channels[key];
            &&& after.unread <= m.channels[key].unread
            &&& after.mentions <= m.channels[key].mentions
        }),
{
    if !is_message(line) {
        lemma_event(m, f, line, key);
    }
}

/// Neither do our own words or history make a conversation unread.
pub proof fn law_own_words_and_history_leave_conversations_read(
    m: ModelView,
    f: FeaturesView,
    latest_ms: u64,
    historical: bool,
    line: LineView,
    key: Seq<char>,
)
    requires
        is_message(line),
        historical || f.same_name(m.me.nick, line.sender()),
        on_line(m, f, latest_ms, historical, line).model.conversations.contains_key(key),
    ensures
        on_line(m, f, latest_ms, historical, line).model.conversations[key].unread == (
        if m.conversations.contains_key(key) {
            m.conversations[key].unread
        } else {
            0
        }),
{
}

/// A message that is there already changes nothing and is not reported again.
pub proof fn law_repeated_message_changes_nothing(
    m: ModelView,
    f: FeaturesView,
    target: Seq<char>,
    msg: MessageView,
)
    requires
        ({
            let to = addressed(f, target);
            let name = if msg.own {
                target
            } else {
                msg.sender
            };
            if f.is_channel(to) {
                m.channels.contains_key(f.fold(to)) && m.channels[f.fold(to)].log.has(msg)
            } else {
                m.conversations.contains_key(f.fold(name)) && m.conversations[f.fold(name)].log.has(
                    msg,
                )
            }
        }),
    ensures
        filed(m, f, target, msg) == nothing(m),
{
    let after = filed(m, f, target, msg).model;
    assert(after.channels =~= m.channels);
    assert(after.conversations =~= m.conversations);
    assert(after =~= m);
}

/// True when a nick stands in a text at this place, and is not part of a longer one.
pub open spec fn whole_word_at(text: Seq<char>, nick: Seq<char>, at: int) -> bool {
    occurs_at(text, nick, at) && stands_alone(text, at, at + nick.len())
}

/// The next occurrence is one, and none comes before it.
proof fn lemma_next_occurrence(text: Seq<char>, needle: Seq<char>, from: int)
    requires
        0 <= from,
        needle.len() > 0,
    ensures
        match next_occurrence(text, needle, from) {
            Some(at) => {
                &&& from <= at
                &&& occurs_at(text, needle, at)
                &&& forall|i: int| from <= i < at ==> !#[trigger] occurs_at(text, needle, i)
            },
            None => forall|i: int| from <= i ==> !#[trigger] occurs_at(text, needle, i),
        },
    decreases text.len() - from,
{
    if from + needle.len() <= text.len() && !occurs_at(text, needle, from) {
        lemma_next_occurrence(text, needle, from + 1);
    }
}

/// Reading from left to right without overlap finds a whole word where there is one.
proof fn lemma_stands_in(text: Seq<char>, nick: Seq<char>, from: int)
    requires
        0 <= from,
        nick.len() > 0,
        forall|i: int| 0 <= i < nick.len() ==> nick_char(#[trigger] nick[i]),
    ensures
        stands_in(text, nick, from) <==> exists|at: int|
            from <= at && #[trigger] whole_word_at(text, nick, at),
    decreases text.len() - from,
{
    lemma_next_occurrence(text, nick, from);
    match next_occurrence(text, nick, from) {
        None => {
            assert forall|at: int| from <= at implies !#[trigger] whole_word_at(
                text,
                nick,
                at,
            ) by {
                assert(!occurs_at(text, nick, at));
            }
        },
        Some(start) => {
            let end = start + nick.len();
            if stands_alone(text, start, end) {
                assert(whole_word_at(text, nick, start));
            } else {
                lemma_stands_in(text, nick, end);
                assert forall|at: int| from <= at < end implies !#[trigger] whole_word_at(
                    text,
                    nick,
                    at,
                ) by {
                    if at > start && occurs_at(text, nick, at) {
                        let there = text.subrange(start, end);
                        assert(there[at - 1 - start] == text[at - 1]);
                        assert(nick_char(nick[at - 1 - start]));
                    }
                }
            }
        },
    }
}

/// A text names someone exactly where their nick stands in it as a whole word, however the two are
/// cased. A nick is made of the characters that nicks are made of.
pub proof fn law_mention_is_a_whole_word(casemapping: Casemapping, text: Seq<char>, nick: Seq<char>)
    requires
        nick.len() > 0,
        forall|i: int|
            0 <= i < casemapping.folded(nick).len() ==> nick_char(
                #[trigger] casemapping.folded(nick)[i],
            ),
    ensures
        mentioned(casemapping, text, nick) <==> exists|at: int|
            0 <= at && #[trigger] whole_word_at(
                casemapping.folded(text),
                casemapping.folded(nick),
                at,
            ),
{
    lemma_stands_in(casemapping.folded(text), casemapping.folded(nick), 0);
}

/// A reaction given twice counts once, and one that is taken back leaves the reactions as they
/// were.
pub proof fn law_reaction_is_undone(
    reactions: Map<Seq<char>, Seq<Seq<char>>>,
    emoji: Seq<char>,
    who: Seq<char>,
)
    requires
        reactions.contains_key(emoji) ==> reactions[emoji].len() > 0,
    ensures
        ({
            let given = reacted(reactions, emoji, who, true);
            reacted(given, emoji, who, true) == given
        }),
        !(reactions.contains_key(emoji) && reactions[emoji].contains(who)) ==> reacted(
            reacted(reactions, emoji, who, true),
            emoji,
            who,
            false,
        ) == reactions,
{
    let had = if reactions.contains_key(emoji) {
        reactions[emoji]
    } else {
        Seq::empty()
    };
    let given = reacted(reactions, emoji, who, true);
    assert(had.push(who)[had.len() as int] == who);
    assert(reacted(given, emoji, who, true) =~= given);
    if !had.contains(who) {
        let taken = given[emoji].filter(another(who));
        assert(given[emoji] == had.push(who));
        assert(given[emoji].drop_last() =~= had);
        reveal(Seq::filter);
        lemma_filter_all(had, another(who));
        assert(taken =~= had);
        assert(reacted(given, emoji, who, false) =~= reactions);
    }
}

/// True when every emoji on a message of this log has someone who reacts with it.
pub open spec fn reactions_filled(log: LogView) -> bool {
    forall|k: MessageKey, emoji: Seq<char>|
        log.messages.contains_key(k) && #[trigger] log.messages[k].reactions.contains_key(emoji)
            ==> log.messages[k].reactions[emoji].len() > 0
}

/// True when that holds of every log of a model.
pub open spec fn all_reactions_filled(m: ModelView) -> bool {
    &&& forall|k: Seq<char>| #[trigger]
        m.channels.contains_key(k) ==> reactions_filled(m.channels[k].log)
    &&& forall|k: Seq<char>| #[trigger]
        m.conversations.contains_key(k) ==> reactions_filled(m.conversations[k].log)
}

proof fn lemma_inserted_filled(log: LogView, msg: MessageView)
    requires
        reactions_filled(log),
        msg.reactions == Map::<Seq<char>, Seq<Seq<char>>>::empty(),
    ensures
        reactions_filled(log.inserted(msg)),
{
    if !log.has(msg) {
        let with = log.with(msg);
        let after = log.inserted(msg);
        lemma_trimmed_is_part(with);
        assert forall|k: MessageKey, emoji: Seq<char>|
            after.messages.contains_key(k) && #[trigger] after.messages[k].reactions.contains_key(
                emoji,
            ) implies after.messages[k].reactions[emoji].len() > 0 by {
            assert(with.messages.contains_key(k) && with.messages[k] == after.messages[k]);
            if k != msg.key {
                assert(log.messages[k].reactions.contains_key(emoji));
            }
        }
    }
}

proof fn lemma_changed_filled(log: LogView, msgid: Seq<char>, msg: MessageView)
    requires
        reactions_filled(log),
        forall|emoji: Seq<char>| #[trigger]
            msg.reactions.contains_key(emoji) ==> msg.reactions[emoji].len() > 0,
    ensures
        reactions_filled(log.with_changed(msgid, msg)),
{
    let after = log.with_changed(msgid, msg);
    assert forall|k: MessageKey, emoji: Seq<char>|
        after.messages.contains_key(k) && #[trigger] after.messages[k].reactions.contains_key(
            emoji,
        ) implies after.messages[k].reactions[emoji].len() > 0 by {
        if k != log.by_msgid[msgid] {
            assert(log.messages[k].reactions.contains_key(emoji));
        }
    }
}

/// The message under an id has its reactions filled, and stays so when someone reacts.
proof fn lemma_message_filled(m: ModelView, key: Seq<char>, msgid: Seq<char>, msg: MessageView)
    requires
        all_reactions_filled(m),
        m.message_at(key, msgid) is Some,
        forall|emoji: Seq<char>| #[trigger]
            msg.reactions.contains_key(emoji) ==> msg.reactions[emoji].len() > 0,
    ensures
        all_reactions_filled(m.with_message(key, msgid, msg)),
{
    if m.channels.contains_key(key) {
        lemma_changed_filled(m.channels[key].log, msgid, msg);
    } else {
        lemma_changed_filled(m.conversations[key].log, msgid, msg);
    }
}

proof fn lemma_held_filled(m: ModelView, key: Seq<char>, msgid: Seq<char>, emoji: Seq<char>)
    requires
        all_reactions_filled(m),
        m.message_at(key, msgid) is Some,
        m.message_at(key, msgid)->0.reactions.contains_key(emoji),
    ensures
        m.message_at(key, msgid)->0.reactions[emoji].len() > 0,
{
    let log = m.log_at(key)->0;
    let k = log.by_msgid[msgid];
    assert(log.messages[k].reactions.contains_key(emoji));
    assert(reactions_filled(log));
}

proof fn lemma_message_line_filled(
    m: ModelView,
    f: FeaturesView,
    latest_ms: u64,
    historical: bool,
    line: LineView,
)
    requires
        all_reactions_filled(m),
    ensures
        all_reactions_filled(
            on_message(m, f, latest_ms, historical, line, upper(line.command)).model,
        ),
{
    let command = upper(line.command);
    if line.param(0) is Some {
        let target = line.param(0)->0;
        if command == "TAGMSG"@ && on_reaction(m, f, line) is Some {
            let (emoji, adding) = reaction_on(line)->0;
            let msgid = line.reply_tag()->0;
            let key = f.fold(target);
            if m.message_at(key, msgid) is Some {
                let held = m.message_at(key, msgid)->0;
                let who = f.fold(line.sender());
                let now = reacted(held.reactions, emoji, who, adding);
                assert forall|e: Seq<char>| #[trigger] now.contains_key(e) implies now[e].len()
                    > 0 by {
                    if held.reactions.contains_key(e) {
                        lemma_held_filled(m, key, msgid, e);
                    }
                }
                lemma_message_filled(m, key, msgid, MessageView { reactions: now, ..held });
            }
        } else if command == "TAGMSG"@ && on_link_preview(m, f, line) is Some {
            let (msgid, preview) = preview_on(line)->0;
            let key = f.fold(target);
            if m.message_at(key, msgid) is Some {
                let held = m.message_at(key, msgid)->0;
                assert forall|e: Seq<char>| #[trigger] held.reactions.contains_key(e) implies
                    held.reactions[e].len() > 0 by {
                    lemma_held_filled(m, key, msgid, e);
                }
                lemma_message_filled(
                    m,
                    key,
                    msgid,
                    MessageView { link_preview: Some(preview), ..held },
                );
            }
        } else {
            let time_ms = stamped(line, latest_ms);
            let at = MessageKey { time_ms, seq: m.next_seq };
            let msg = message_on(m, f, line, command, at, historical);
            let to = addressed(f, target);
            if f.is_channel(to) {
                if m.channels.contains_key(f.fold(to)) {
                    lemma_inserted_filled(m.channels[f.fold(to)].log, msg);
                }
            } else {
                let name = if msg.own {
                    target
                } else {
                    msg.sender
                };
                let c = m.conversation_or_fresh(f.fold(name), name);
                assert(reactions_filled(c.log));
                lemma_inserted_filled(c.log, msg);
            }
        }
    }
}

/// No emoji is kept without someone who reacts with it, from the start and whatever line comes.
#[verifier::rlimit(60)]
#[verifier::spinoff_prover]
pub proof fn law_reactions_stay_filled(
    m: ModelView,
    f: FeaturesView,
    latest_ms: u64,
    historical: bool,
    line: LineView,
    retention: nat,
)
    requires
        all_reactions_filled(m),
    ensures
        all_reactions_filled(ModelView::fresh(retention)),
        all_reactions_filled(on_line(m, f, latest_ms, historical, line).model),
{
    let command = upper(line.command);
    if is_message(line) {
        lemma_message_line_filled(m, f, latest_ms, historical, line);
    } else {
        if command == "353"@ && line.param(2) is Some && m.channels.contains_key(
            f.fold(line.param(2)->0),
        ) {
            lemma_entries(m, f, f.fold(line.param(2)->0), words(line.trailing_or_empty()));
        }
        if command == "MODE"@ && line.param(0) is Some {
            lemma_modes(m, f, f.fold(line.param(0)->0), f.channel_modes(line.params.skip(1)));
        }
        if command == "REDACT"@ && line.param(0) is Some && line.param(1) is Some {
            let (key, msgid) = (f.fold(line.param(0)->0), line.param(1)->0);
            if m.message_at(key, msgid) is Some {
                let held = m.message_at(key, msgid)->0;
                assert forall|e: Seq<char>| #[trigger] held.reactions.contains_key(e) implies
                    held.reactions[e].len() > 0 by {
                    lemma_held_filled(m, key, msgid, e);
                }
                lemma_message_filled(m, key, msgid, MessageView { redacted: true, ..held });
            }
        }
    }
}

/// A reaction given twice on a message that we hold counts once, and taking it back leaves the model
/// as it was before. Each is reported, and none is a message in the log.
pub proof fn law_reaction_lines_undo(
    m: ModelView,
    f: FeaturesView,
    give: LineView,
    take: LineView,
    target: Seq<char>,
    msgid: Seq<char>,
    emoji: Seq<char>,
)
    requires
        all_reactions_filled(m),
        reaction_on(give) == Some((emoji, true)),
        reaction_on(take) == Some((emoji, false)),
        give.reply_tag() == Some(msgid) && take.reply_tag() == Some(msgid),
        give.param(0) == Some(target) && take.param(0) == Some(target),
        give.sender() == take.sender(),
        m.message_at(f.fold(target), msgid) is Some,
        ({
            let reactions = m.message_at(f.fold(target), msgid)->0.reactions;
            !(reactions.contains_key(emoji) && reactions[emoji].contains(f.fold(give.sender())))
        }),
    ensures
        ({
            let key = f.fold(target);
            let told = seq![ChangeView::Reacted { target, msgid }];
            let given = on_reaction(m, f, give)->0;
            let again = on_reaction(given.model, f, give)->0;
            let taken = on_reaction(given.model, f, take)->0;
            &&& on_reaction(m, f, give) is Some && given.changes == told
            &&& on_reaction(given.model, f, give) is Some && again.changes == told
            &&& on_reaction(given.model, f, take) is Some && taken.changes == told
            &&& again.model == given.model
            &&& taken.model == m
            &&& given.model.message_at(key, msgid)->0.reactions[emoji].last() == f.fold(
                give.sender(),
            )
            &&& given.model.log_at(key)->0.in_time().len() == m.log_at(key)->0.in_time().len()
        }),
{
    let key = f.fold(target);
    let who = f.fold(give.sender());
    let held = m.message_at(key, msgid)->0;
    if held.reactions.contains_key(emoji) {
        lemma_held_filled(m, key, msgid, emoji);
    }
    law_reaction_is_undone(held.reactions, emoji, who);
    let given = on_reaction(m, f, give)->0.model;
    let log = m.log_at(key)->0;
    assert(log.messages.insert(log.by_msgid[msgid], held) =~= log.messages);
    assert(given.log_at(key)->0.messages.dom() =~= log.messages.dom());
    let now = given.message_at(key, msgid)->0;
    assert(now == MessageView { reactions: reacted(held.reactions, emoji, who, true), ..held });
    let again = on_reaction(given, f, give)->0.model;
    let taken = on_reaction(given, f, take)->0.model;
    assert(again.log_at(key)->0.messages =~= given.log_at(key)->0.messages);
    assert(taken.log_at(key)->0.messages =~= log.messages);
    assert(again.channels =~= given.channels);
    assert(again.conversations =~= given.conversations);
    assert(taken.channels =~= m.channels);
    assert(taken.conversations =~= m.conversations);
}

/// Filtering drops nothing where everything passes.
proof fn lemma_filter_all(s: Seq<Seq<char>>, keep: spec_fn(Seq<char>) -> bool)
    requires
        forall|i: int| 0 <= i < s.len() ==> keep(#[trigger] s[i]),
    ensures
        s.filter(keep) == s,
    decreases s.len(),
{
    reveal(Seq::filter);
    if s.len() > 0 {
        lemma_filter_all(s.drop_last(), keep);
        assert(s.drop_last().push(s.last()) =~= s);
    }
}

} // verus!

//! What a host gets for what it asks: the line that is written for a command carries what the
//! command holds, and what comes back of it is what was asked for.

use vstd::prelude::*;
use vstd::utf8::encode_utf8;

use crate::command::{CommandView, Typing};
use crate::isupport::FeaturesView;
use crate::label::PendingView;
use crate::model::{MessageKey, MessageKindView, ModelView};
use crate::monitor::{chunked, per_request, requests};
use crate::session::on_line;
use crate::session_laws::{
    has_reacted, is_news, law_deleted_is_marked_and_kept, law_marker_is_the_servers_word,
    law_new_nick_same_person, law_reactions_are_listed, law_topic_is_shown, law_away_and_account,
    law_we_are_out, law_what_is_said_in_a_channel_is_kept, log_of, names_channel, says, stands,
};
use crate::state::{monitor_request, who_lines, wire_of, with_new, ClientView};
use crate::text::{decimal, joined, upper};
use crate::wire::{parsed, rendered, tags_with, LineView, SourceView, TagView};

verus! {

/// A line of ours.
pub open spec fn line_of(
    tags: Seq<TagView>,
    command: Seq<char>,
    params: Seq<Seq<char>>,
) -> LineView {
    LineView { tags, source: None, command, params }
}

/// The bytes that are written for a line: its text, and a carriage return and a line feed.
pub open spec fn bytes_of(line: LineView) -> Seq<u8> {
    encode_utf8(rendered(line)) + seq![13u8, 10u8]
}

/// A tag with a value.
pub open spec fn tag_of(key: Seq<char>, value: Seq<char>) -> TagView {
    TagView { key, value: Some(value) }
}

/// The instant at which a command is given up on that is never answered.
pub open spec fn patience(now: u64) -> u64 {
    if now > u64::MAX - 30_000 {
        u64::MAX
    } else {
        (now + 30_000) as u64
    }
}

/// True when one line more is written than before, with these tags, this command and these
/// parameters. Where the server knows labels, the line has one, and what was asked is remembered
/// under it until it is answered or half a minute has passed; elsewhere it has none.
#[verifier::opaque]
pub open spec fn asks(
    before: ClientView,
    after: ClientView,
    tags: Seq<TagView>,
    command: Seq<char>,
    params: Seq<Seq<char>>,
) -> bool {
    if before.caps.acknowledged.contains_key("labeled-response"@) {
        exists|label: Seq<char>|
            {
                &&& #[trigger] after.labels.pending.contains_key(label)
                &&& after.labels.pending[label] == (PendingView {
                    deadline_ms: patience(before.monotonic_ms),
                    batch_id: None,
                    data: command,
                })
                &&& after.outbox == before.outbox.push(
                    bytes_of(line_of(tags.push(tag_of("label"@, label)), command, params)),
                )
                &&& forall|k: Seq<char>|
                    k != label ==> (#[trigger] after.labels.pending.contains_key(k)
                        == before.labels.pending.contains_key(k))
                &&& forall|k: Seq<char>|
                    k != label && #[trigger] before.labels.pending.contains_key(k)
                        ==> after.labels.pending[k] == before.labels.pending[k]
            }
    } else {
        &&& after.outbox == before.outbox.push(bytes_of(line_of(tags, command, params)))
        &&& after.labels == before.labels
    }
}

/// Putting a tag on a line that has none of that key puts it behind the others.
proof fn lemma_new_tag(tags: Seq<TagView>, tag: TagView)
    requires
        forall|i: int| 0 <= i < tags.len() ==> (#[trigger] tags[i]).key != tag.key,
    ensures
        tags_with(tags, tag) == tags.push(tag),
    decreases tags.len(),
{
    if tags.len() == 0 {
        assert(seq![tag] =~= tags.push(tag));
    } else {
        let rest = tags.drop_first();
        assert forall|i: int| 0 <= i < rest.len() implies (#[trigger] rest[i]).key != tag.key by {
            assert(rest[i] == tags[i + 1]);
        }
        lemma_new_tag(rest, tag);
        assert(seq![tags[0]] + rest.push(tag) =~= tags.push(tag));
    }
}

proof fn lemma_asks(c: ClientView, line: LineView)
    requires
        line.source is None,
        forall|i: int| 0 <= i < line.tags.len() ==> (#[trigger] line.tags[i]).key != "label"@,
    ensures
        asks(c, c.sending_labeled(line), line.tags, line.command, line.params),
{
    reveal(asks);
    if c.caps.acknowledged.contains_key("labeled-response"@) {
        let label = c.next_label()->0;
        lemma_new_tag(line.tags, tag_of("label"@, label));
        let after = c.sending_labeled(line);
        assert(line.with_tag("label"@, label) =~= line_of(
            line.tags.push(tag_of("label"@, label)),
            line.command,
            line.params,
        ));
        assert(after.labels.pending.contains_key(label));
    } else {
        assert(line =~= line_of(line.tags, line.command, line.params));
    }
}

/// What a command writes that goes onto the wire as it is.
proof fn lemma_written(c: ClientView, command: CommandView, line: LineView)
    requires
        wire_of(command) == Some(line),
        line.source is None,
        forall|i: int| 0 <= i < line.tags.len() ==> (#[trigger] line.tags[i]).key != "label"@,
    ensures
        asks(c, c.commanding(command), line.tags, line.command, line.params),
{
    lemma_asks(c, line);
}

proof fn lemma_tag_names()
    ensures
        "label"@ =~= seq!['l', 'a', 'b', 'e', 'l'],
        "+typing"@[0] == '+',
        "+draft/react"@.len() == 12 && "+draft/react"@[0] == '+',
        "+draft/unreact"@.len() == 14 && "+draft/unreact"@[0] == '+',
        "+draft/reply"@[0] == '+' && "+draft/reply"@[9] == 'p' && "+draft/react"@[9] == 'a',
        "+draft/reply"@.len() == 12,
        "+obsidianirc/rtc"@[0] == '+',
        "active"@.len() == 6 && "paused"@.len() == 6 && "done"@.len() == 4,
        "active"@[0] == 'a' && "paused"@[0] == 'p',
        "BEFORE"@[0] == 'B' && "LATEST"@[0] == 'L',
{
    reveal_strlit("label");
    reveal_strlit("+typing");
    reveal_strlit("+draft/react");
    reveal_strlit("+draft/unreact");
    reveal_strlit("+draft/reply");
    reveal_strlit("+obsidianirc/rtc");
    reveal_strlit("active");
    reveal_strlit("paused");
    reveal_strlit("done");
    reveal_strlit("BEFORE");
    reveal_strlit("LATEST");
}

/// These, and behind them what may be missing.
pub open spec fn and_maybe(params: Seq<Seq<char>>, last: Option<Seq<char>>) -> Seq<Seq<char>> {
    if last is Some {
        params.push(last->0)
    } else {
        params
    }
}

/// Leaving a channel or the network names the channel and gives the reason, where there is one.
pub proof fn law_leaving_is_written(
    c: ClientView,
    channel: Seq<char>,
    reason: Option<Seq<char>>,
)
    ensures
        asks(
            c,
            c.commanding(CommandView::Part { channel, reason }),
            Seq::empty(),
            "PART"@,
            and_maybe(seq![channel], reason),
        ),
        asks(
            c,
            c.commanding(CommandView::Quit { reason }),
            Seq::empty(),
            "QUIT"@,
            and_maybe(Seq::empty(), reason),
        ),
{
    lemma_written(
        c,
        CommandView::Part { channel, reason },
        line_of(Seq::<TagView>::empty(), "PART"@, and_maybe(seq![channel], reason)),
    );
    lemma_written(
        c,
        CommandView::Quit { reason },
        line_of(Seq::<TagView>::empty(), "QUIT"@, and_maybe(Seq::empty(), reason)),
    );
}

/// The nick that we take is the one that is written. An away message is written as it is, and
/// coming back writes none.
pub proof fn law_nick_and_away_are_written(
    c: ClientView,
    nick: Seq<char>,
    message: Option<Seq<char>>,
)
    ensures
        asks(
            c,
            c.commanding(CommandView::SetNick { nick }),
            Seq::empty(),
            "NICK"@,
            seq![nick],
        ),
        asks(
            c,
            c.commanding(CommandView::SetAway { message }),
            Seq::empty(),
            "AWAY"@,
            and_maybe(Seq::empty(), message),
        ),
{
    lemma_written(
        c,
        CommandView::SetNick { nick },
        line_of(Seq::<TagView>::empty(), "NICK"@, seq![nick]),
    );
    lemma_written(
        c,
        CommandView::SetAway { message },
        line_of(Seq::<TagView>::empty(), "AWAY"@, and_maybe(Seq::empty(), message)),
    );
}

/// A topic is written word for word, and only the command that carries none writes an empty one for
/// want of one.
pub proof fn law_topic_is_written(
    c: ClientView,
    channel: Seq<char>,
    topic: Seq<char>,
)
    ensures
        asks(
            c,
            c.commanding(CommandView::SetTopic { channel, topic: Some(topic) }),
            Seq::empty(),
            "TOPIC"@,
            seq![channel, topic],
        ),
        asks(
            c,
            c.commanding(CommandView::SetTopic { channel, topic: None }),
            Seq::empty(),
            "TOPIC"@,
            seq![channel, Seq::empty()],
        ),
{
    assert(wire_of(CommandView::SetTopic { channel, topic: Some(topic) })->0.params =~= seq![
        channel,
        topic,
    ]);
    assert(wire_of(CommandView::SetTopic { channel, topic: None })->0.params =~= seq![
        channel,
        Seq::empty(),
    ]);
    lemma_written(
        c,
        CommandView::SetTopic { channel, topic: Some(topic) },
        line_of(Seq::<TagView>::empty(), "TOPIC"@, seq![channel, topic]),
    );
    lemma_written(
        c,
        CommandView::SetTopic { channel, topic: None },
        line_of(Seq::<TagView>::empty(), "TOPIC"@, seq![channel, Seq::empty()]),
    );
}

/// How far we are with typing goes to its target as a message without a body.
pub proof fn law_typing_is_written(c: ClientView, target: Seq<char>)
    ensures
        asks(
            c,
            c.commanding(CommandView::SetTyping { target, state: Typing::Active }),
            seq![tag_of("+typing"@, "active"@)],
            "TAGMSG"@,
            seq![target],
        ),
        asks(
            c,
            c.commanding(CommandView::SetTyping { target, state: Typing::Paused }),
            seq![tag_of("+typing"@, "paused"@)],
            "TAGMSG"@,
            seq![target],
        ),
        asks(
            c,
            c.commanding(CommandView::SetTyping { target, state: Typing::Done }),
            seq![tag_of("+typing"@, "done"@)],
            "TAGMSG"@,
            seq![target],
        ),
{
    lemma_tag_names();
    lemma_tagged(
        c,
        CommandView::SetTyping { target, state: Typing::Active },
        target,
        "+typing"@,
        "active"@,
    );
    lemma_tagged(
        c,
        CommandView::SetTyping { target, state: Typing::Paused },
        target,
        "+typing"@,
        "paused"@,
    );
    lemma_tagged(
        c,
        CommandView::SetTyping { target, state: Typing::Done },
        target,
        "+typing"@,
        "done"@,
    );
}

/// A reaction, or its end, goes out together with the message that it is about.
pub proof fn law_reaction_is_written(
    c: ClientView,
    target: Seq<char>,
    msgid: Seq<char>,
    emoji: Seq<char>,
)
    ensures
        asks(
            c,
            c.commanding(CommandView::AddReaction { target, msgid, emoji }),
            seq![tag_of("+draft/react"@, emoji), tag_of("+draft/reply"@, msgid)],
            "TAGMSG"@,
            seq![target],
        ),
        asks(
            c,
            c.commanding(CommandView::RemoveReaction { target, msgid, emoji }),
            seq![tag_of("+draft/unreact"@, emoji), tag_of("+draft/reply"@, msgid)],
            "TAGMSG"@,
            seq![target],
        ),
{
    lemma_tag_names();
    lemma_reaction("+draft/react"@, target, msgid, emoji);
    lemma_reaction("+draft/unreact"@, target, msgid, emoji);
    lemma_written(
        c,
        CommandView::AddReaction { target, msgid, emoji },
        line_of(
            seq![tag_of("+draft/react"@, emoji), tag_of("+draft/reply"@, msgid)],
            "TAGMSG"@,
            seq![target],
        ),
    );
    lemma_written(
        c,
        CommandView::RemoveReaction { target, msgid, emoji },
        line_of(
            seq![tag_of("+draft/unreact"@, emoji), tag_of("+draft/reply"@, msgid)],
            "TAGMSG"@,
            seq![target],
        ),
    );
}

/// Voice signalling goes to the channel as the host built it.
pub proof fn law_voice_signal_is_written(
    c: ClientView,
    channel: Seq<char>,
    signal_json: Seq<char>,
)
    ensures
        asks(
            c,
            c.commanding(CommandView::SendVoiceSignal { channel, signal_json }),
            seq![tag_of("+obsidianirc/rtc"@, signal_json)],
            "TAGMSG"@,
            seq![channel],
        ),
{
    lemma_tag_names();
    lemma_tagged(
        c,
        CommandView::SendVoiceSignal { channel, signal_json },
        channel,
        "+obsidianirc/rtc"@,
        signal_json,
    );
}

proof fn lemma_tagged(
    c: ClientView,
    command: CommandView,
    target: Seq<char>,
    key: Seq<char>,
    value: Seq<char>,
)
    requires
        key != "label"@,
        wire_of(command) == Some(LineView::plain("TAGMSG"@, seq![target]).with_tag(key, value)),
    ensures
        asks(
            c,
            c.commanding(command),
            seq![tag_of(key, value)],
            "TAGMSG"@,
            seq![target],
        ),
{
    let line = LineView::plain("TAGMSG"@, seq![target]).with_tag(key, value);
    lemma_new_tag(Seq::empty(), tag_of(key, value));
    assert(line.tags =~= seq![tag_of(key, value)]);
    lemma_written(c, command, line);
}

proof fn lemma_reaction(tag: Seq<char>, target: Seq<char>, msgid: Seq<char>, emoji: Seq<char>)
    requires
        tag != "+draft/reply"@,
    ensures
        crate::state::reaction_line(tag, target, msgid, emoji) == line_of(
            seq![tag_of(tag, emoji), tag_of("+draft/reply"@, msgid)],
            "TAGMSG"@,
            seq![target],
        ),
{
    let line = crate::state::reaction_line(tag, target, msgid, emoji);
    lemma_new_tag(Seq::empty(), tag_of(tag, emoji));
    let first = seq![tag_of(tag, emoji)];
    assert(LineView::plain("TAGMSG"@, seq![target]).with_tag(tag, emoji).tags =~= first);
    lemma_new_tag(first, tag_of("+draft/reply"@, msgid));
    assert(line.tags =~= seq![tag_of(tag, emoji), tag_of("+draft/reply"@, msgid)]);
}

/// Deleting a message names it and where it is, with the reason where there is one. How far we have
/// read is written as the time of the last message.
pub proof fn law_redaction_and_marker_are_written(
    c: ClientView,
    target: Seq<char>,
    msgid: Seq<char>,
    reason: Option<Seq<char>>,
    timestamp: Seq<char>,
)
    ensures
        asks(
            c,
            c.commanding(CommandView::RedactMessage { target, msgid, reason }),
            Seq::empty(),
            "REDACT"@,
            and_maybe(seq![target, msgid], reason),
        ),
        asks(
            c,
            c.commanding(CommandView::MarkRead { target, timestamp }),
            Seq::empty(),
            "MARKREAD"@,
            seq![target, "timestamp="@ + timestamp],
        ),
{
    lemma_written(
        c,
        CommandView::RedactMessage { target, msgid, reason },
        line_of(Seq::<TagView>::empty(), "REDACT"@, and_maybe(seq![target, msgid], reason)),
    );
    lemma_written(
        c,
        CommandView::MarkRead { target, timestamp },
        line_of(Seq::<TagView>::empty(), "MARKREAD"@, seq![target, "timestamp="@ + timestamp]),
    );
}

/// Older messages are asked for by the one that they come before, or by nothing where the latest
/// are wanted, and by how many.
pub proof fn law_history_request_is_written(
    c: ClientView,
    target: Seq<char>,
    msgid: Seq<char>,
    limit: u16,
)
    ensures
        asks(
            c,
            c.commanding(CommandView::FetchHistory { target, before: Some(msgid), limit }),
            Seq::empty(),
            "CHATHISTORY"@,
            seq!["BEFORE"@, target, "msgid="@ + msgid, decimal(limit as nat)],
        ),
        asks(
            c,
            c.commanding(CommandView::FetchHistory { target, before: None, limit }),
            Seq::empty(),
            "CHATHISTORY"@,
            seq!["LATEST"@, target, "*"@, decimal(limit as nat)],
        ),
{
    lemma_written(
        c,
        CommandView::FetchHistory { target, before: Some(msgid), limit },
        line_of(
            Seq::<TagView>::empty(),
            "CHATHISTORY"@,
            seq!["BEFORE"@, target, "msgid="@ + msgid, decimal(limit as nat)],
        ),
    );
    lemma_written(
        c,
        CommandView::FetchHistory { target, before: None, limit },
        line_of(
            Seq::<TagView>::empty(),
            "CHATHISTORY"@,
            seq!["LATEST"@, target, "*"@, decimal(limit as nat)],
        ),
    );
}

/// A metadata key of ours is set to its value, or without one cleared.
pub proof fn law_metadata_is_written(
    c: ClientView,
    key: Seq<char>,
    value: Option<Seq<char>>,
)
    ensures
        asks(
            c,
            c.commanding(CommandView::SetMetadata { key, value }),
            Seq::empty(),
            "METADATA"@,
            and_maybe(seq!["*"@, "SET"@, key], value),
        ),
{
    lemma_written(
        c,
        CommandView::SetMetadata { key, value },
        line_of(Seq::<TagView>::empty(), "METADATA"@, and_maybe(seq!["*"@, "SET"@, key], value)),
    );
}

/// A line of the host's own is written as it parses, with a label where the server knows them and
/// the line has none yet; one that does not parse writes nothing and changes nothing.
pub proof fn law_raw_line_is_written(c: ClientView, line: Seq<char>)
    ensures
        parsed(line) is None ==> c.commanding(CommandView::SendRawLine { line }) == c,
        parsed(line) is Some && !c.caps.acknowledged.contains_key("labeled-response"@)
            ==> c.commanding(CommandView::SendRawLine { line }).outbox == c.outbox.push(
            bytes_of(parsed(line)->0),
        ),
        parsed(line) is Some && parsed(line)->0.source is None && (forall|i: int|
            0 <= i < parsed(line)->0.tags.len() ==> (#[trigger] parsed(line)->0.tags[i]).key
                != "label"@) ==> asks(
            c,
            c.commanding(CommandView::SendRawLine { line }),
            parsed(line)->0.tags,
            parsed(line)->0.command,
            parsed(line)->0.params,
        ),
{
    if parsed(line) is Some && parsed(line)->0.source is None && (forall|i: int|
        0 <= i < parsed(line)->0.tags.len() ==> (#[trigger] parsed(line)->0.tags[i]).key
            != "label"@) {
        lemma_asks(c, parsed(line)->0);
    }
}

/// A command that asks for something and says nothing itself touches only what is written and what
/// is waited for: whatever is shown changes when the server answers.
pub proof fn law_asking_changes_nothing_shown(c: ClientView, command: CommandView)
    requires
        !(command is SendMessage) && !(command is SendNotice) && !(command is SendAction),
    ensures
        c.commanding(command).model == c.model,
        c.commanding(command).events == c.events,
        c.commanding(command).nick == c.nick,
        c.commanding(command).phase == c.phase,
        c.commanding(command).caps == c.caps,
        c.commanding(command).isupport == c.isupport,
        c.commanding(command).timers == c.timers,
        c.commanding(command).rooms == c.rooms,
        c.commanding(command).batches == c.batches,
        !(command is Join) ==> c.commanding(command).channel_keys == c.channel_keys,
        !(command is SubscribeMetadata) ==> c.commanding(command).metadata_subscriptions
            == c.metadata_subscriptions,
        !(command is WatchNicks) && !(command is UnwatchNicks) ==> c.commanding(command).monitor
            == c.monitor,
{
}

/// Joining a channel names it, with its key where it has one, and the key is remembered for when
/// the connection comes back; joining without one forgets it. The keys of other channels stay.
pub proof fn law_join_is_written(
    c: ClientView,
    channel: Seq<char>,
    key: Option<Seq<char>>,
    other: Seq<char>,
)
    ensures
        ({
            let after = c.commanding(CommandView::Join { channel, key });
            let at = c.isupport.fold(channel);
            &&& asks(c, after, Seq::empty(), "JOIN"@, and_maybe(seq![channel], key))
            &&& key is Some ==> after.channel_keys.contains_key(at) && after.channel_keys[at]
                == key->0
            &&& key is None ==> !after.channel_keys.contains_key(at)
            &&& other != at ==> after.channel_keys.contains_key(other)
                == c.channel_keys.contains_key(other)
            &&& other != at && c.channel_keys.contains_key(other) ==> after.channel_keys[other]
                == c.channel_keys[other]
        }),
{
    let at = ClientView {
        channel_keys: match key {
            Some(key) => c.channel_keys.insert(c.isupport.fold(channel), key),
            None => c.channel_keys.remove(c.isupport.fold(channel)),
        },
        ..c
    };
    lemma_asks(at, crate::state::with_optional("JOIN"@, seq![channel], key));
    reveal(asks);
}

/// Asking to be told of metadata keys names them all, and each is remembered for when the
/// connection comes back, once, beside those that were.
pub proof fn law_subscription_is_written(
    c: ClientView,
    keys: Seq<Seq<char>>,
    key: Seq<char>,
)
    ensures
        ({
            let after = c.commanding(CommandView::SubscribeMetadata { keys });
            &&& asks(c, after, Seq::empty(), "METADATA"@, seq!["*"@, "SUB"@] + keys)
            &&& after.metadata_subscriptions.contains(key) <==> c.metadata_subscriptions.contains(
                key,
            ) || keys.contains(key)
            &&& c.metadata_subscriptions.no_duplicates()
                ==> after.metadata_subscriptions.no_duplicates()
        }),
{
    let at = ClientView {
        metadata_subscriptions: with_new(c.metadata_subscriptions, keys),
        ..c
    };
    lemma_asks(at, LineView::plain("METADATA"@, seq!["*"@, "SUB"@] + keys));
    reveal(asks);
    lemma_with_new(c.metadata_subscriptions, keys, key);
}

proof fn lemma_with_new(had: Seq<Seq<char>>, more: Seq<Seq<char>>, key: Seq<char>)
    ensures
        with_new(had, more).contains(key) <==> had.contains(key) || more.contains(key),
        had.no_duplicates() ==> with_new(had, more).no_duplicates(),
    decreases more.len(),
{
    if more.len() > 0 {
        let less = more.drop_last();
        let last = more.last();
        lemma_with_new(had, less, key);
        lemma_with_new(had, less, last);
        let rest = with_new(had, less);
        assert(more[more.len() - 1] == last);
        assert(rest.push(last)[rest.len() as int] == last);
        if less.contains(key) {
            assert(more[less.index_of(key)] == key);
        }
        if more.contains(key) && key != last {
            assert(less[more.index_of(key)] == key);
        }
        if rest.contains(key) {
            assert(rest.push(last)[rest.index_of(key)] == key);
        }
        if rest.push(last).contains(key) && key != last {
            assert(rest[rest.push(last).index_of(key)] == key);
        }
    }
}

/// Watching nicks, and no longer watching them, is asked of the server in groups that it accepts,
/// which together name every nick in its place: nick `i` stands in group `i / limit`. Whom we watch
/// is then watched, whom we do not is neither watched nor shown as online, and nobody else is
/// touched.
pub proof fn law_watching_is_written(
    c: ClientView,
    nicks: Seq<Seq<char>>,
    watching: bool,
    i: int,
    who: Seq<char>,
)
    requires
        0 <= i < nicks.len(),
    ensures
        ({
            let after = c.commanding(
                if watching {
                    CommandView::WatchNicks { nicks }
                } else {
                    CommandView::UnwatchNicks { nicks }
                },
            );
            let limit = if c.monitor_limit() == 0 {
                1
            } else {
                c.monitor_limit()
            };
            let group = i / limit as int;
            let from = group * limit;
            let to = if from + limit < nicks.len() {
                from + limit
            } else {
                nicks.len() as int
            };
            let verb = if watching {
                "+"@
            } else {
                "-"@
            };
            let asked = nicks.map_values(|nick: Seq<char>| c.isupport.fold(nick)).contains(who);
            &&& after.outbox.len() > c.outbox.len() + group
            &&& after.outbox.take(c.outbox.len() as int) == c.outbox
            &&& after.outbox[c.outbox.len() + group] == bytes_of(
                line_of(
                    Seq::empty(),
                    "MONITOR"@,
                    seq![verb, joined(nicks.subrange(from, to), ","@)],
                ),
            )
            &&& from <= i < to
            &&& asked && watching ==> after.monitor.watching.contains(who)
            &&& asked && !watching ==> !after.monitor.watching.contains(who)
                && !after.monitor.online.contains(who)
            &&& !asked ==> after.monitor.watching.contains(who) == c.monitor.watching.contains(who)
                && after.monitor.online.contains(who) == c.monitor.online.contains(who)
        }),
{
    let limit = per_request(c.monitor_limit());
    let group = i / limit as int;
    lemma_group_of(nicks, limit, i);
    crate::monitor::law_requests_stay_inside_the_limit(nicks, limit, group);
    let folds = nicks.map_values(|nick: Seq<char>| c.isupport.fold(nick));
    let asked = requests(nicks, c.monitor_limit());
    let verb = if watching {
        "+"@
    } else {
        "-"@
    };
    let lines = asked.map_values(monitor_request(verb));
    let after = c.setting_watch(nicks, watching);
    assert(after.outbox =~= c.outbox + lines.map_values(crate::state::as_written()));
    assert(after.outbox[c.outbox.len() + group] == crate::state::written(lines[group]));
    assert(after.outbox.take(c.outbox.len() as int) =~= c.outbox);
    assert(folds.to_set().contains(who) == folds.contains(who));
    assert(lines[group] =~= line_of(
        Seq::empty(),
        "MONITOR"@,
        seq![verb, joined(chunked(nicks, limit)[group], ","@)],
    ));
}

/// Every target stands in the group that its place calls for.
pub(crate) proof fn lemma_group_of(targets: Seq<Seq<char>>, size: nat, i: int)
    requires
        size > 0,
        0 <= i < targets.len(),
    ensures
        0 <= i / size as int,
        i / (size as int) < chunked(targets, size).len(),
        (i / size as int) * size <= i < (i / size as int) * size + size,
    decreases targets.len(),
{
    let n = size as int;
    vstd::arithmetic::div_mod::lemma_fundamental_div_mod(i, n);
    vstd::arithmetic::div_mod::lemma_div_pos_is_pos(i, n);
    vstd::arithmetic::div_mod::lemma_mod_bound(i, n);
    assert((i / n) * n == n * (i / n)) by (nonlinear_arith);
    if i < n {
        vstd::arithmetic::div_mod::lemma_basic_div(i, n);
    } else {
        let rest = targets.skip(n);
        lemma_group_of(rest, size, i - n);
        assert((i - n) / n == i / n - 1) by {
            vstd::arithmetic::div_mod::lemma_div_minus_one(i, n);
        }
    }
}

/// A message and a notice are written to whom they are for, word for word.
pub proof fn law_what_we_say_is_written(c: ClientView, target: Seq<char>, text: Seq<char>)
    ensures
        asks(
            c,
            c.commanding(CommandView::SendMessage { target, text }),
            Seq::empty(),
            "PRIVMSG"@,
            seq![target, text],
        ),
        asks(
            c,
            c.commanding(CommandView::SendNotice { target, text }),
            Seq::empty(),
            "NOTICE"@,
            seq![target, text],
        ),
{
    lemma_says_one(c, line_of(Seq::empty(), "PRIVMSG"@, seq![target, text]));
    lemma_says_one(c, line_of(Seq::empty(), "NOTICE"@, seq![target, text]));
}

/// An action is written between the marks that make it one.
pub proof fn law_what_we_do_is_written(c: ClientView, target: Seq<char>, text: Seq<char>)
    ensures
        asks(
            c,
            c.commanding(CommandView::SendAction { target, text }),
            Seq::empty(),
            "PRIVMSG"@,
            seq![
                target,
                seq!['\u{1}', 'A', 'C', 'T', 'I', 'O', 'N', ' '] + text + seq!['\u{1}'],
            ],
        ),
{
    let action = "\u{1}ACTION "@ + text + "\u{1}"@;
    reveal_strlit("\u{1}ACTION ");
    reveal_strlit("\u{1}");
    assert("\u{1}ACTION "@ =~= seq!['\u{1}', 'A', 'C', 'T', 'I', 'O', 'N', ' ']);
    assert("\u{1}"@ =~= seq!['\u{1}']);
    lemma_says_one(c, line_of(Seq::empty(), "PRIVMSG"@, seq![target, action]));
}

proof fn lemma_said_lines()
    ensures
        upper("PRIVMSG"@) == "PRIVMSG"@,
        upper("NOTICE"@) == "NOTICE"@,
        "PRIVMSG"@ != "TAGMSG"@ && "NOTICE"@ != "TAGMSG"@,
{
    reveal_strlit("PRIVMSG");
    reveal_strlit("NOTICE");
    reveal_strlit("TAGMSG");
    assert(upper("PRIVMSG"@) =~= "PRIVMSG"@);
    assert(upper("NOTICE"@) =~= "NOTICE"@);
    assert("PRIVMSG"@.len() == 7 && "TAGMSG"@.len() == 6);
    assert("NOTICE"@[0] == 'N' && "TAGMSG"@[0] == 'T');
}

/// Saying something writes that one line: what is recorded of it writes none.
proof fn lemma_says_one(c: ClientView, line: LineView)
    requires
        line.command == "PRIVMSG"@ || line.command == "NOTICE"@,
        line.source is None,
        line.tags.len() == 0,
    ensures
        asks(c, c.saying(line), line.tags, line.command, line.params),
{
    lemma_said_lines();
    lemma_asks(c, line);
    let said = c.sending_labeled(line);
    let o = on_line(said.model, said.isupport, said.latest_ms, false, c.echoed(line));
    reveal(ClientView::folding);
    assert(o.changes.len() <= 1);
    assert(o.changes.len() == 1 ==> o.changes[0] is Message);
    assert(who_lines(said.isupport, o.changes) =~= Seq::empty()) by {
        reveal_with_fuel(who_lines, 2);
    }
    let none = Seq::<LineView>::empty().map_values(crate::state::as_written());
    assert(said.outbox + none =~= said.outbox);
    reveal(asks);
    assert(c.saying(line).outbox =~= said.outbox);
    assert(c.saying(line).labels == said.labels);
}

/// What we say in a channel that we are in stands in its log as we said it, under our nick, from
/// the moment that we say it, where the server sends no echo.
pub proof fn law_what_we_say_is_shown(
    c: ClientView,
    name: Seq<char>,
    text: Seq<char>,
    notice: bool,
)
    requires
        c.one_nick(),
        !c.caps.acknowledged.contains_key("echo-message"@),
        c.isupport.is_channel(name) && !c.isupport.is_statusmsg(name[0]),
        c.model.channels.contains_key(c.isupport.fold(name)),
        text.len() == 0 || text[0] != '\u{1}',
        is_news(
            c.model.channels[c.isupport.fold(name)].log,
            None,
            c.latest_ms,
            c.nick,
            text,
        ),
        c.model.channels[c.isupport.fold(name)].log.messages.dom().finite(),
        c.model.channels[c.isupport.fold(name)].log.messages.len()
            < c.model.channels[c.isupport.fold(name)].log.retention,
    ensures
        ({
            let after = c.commanding(
                if notice {
                    CommandView::SendNotice { target: name, text }
                } else {
                    CommandView::SendMessage { target: name, text }
                },
            );
            let place = MessageKey { time_ms: c.latest_ms, seq: c.model.next_seq };
            let log = after.model.channels[c.isupport.fold(name)].log;
            &&& log.messages.contains_key(place)
            &&& log.messages[place].text == text
            &&& log.messages[place].sender == c.nick
            &&& log.messages[place].own && !log.messages[place].historical
            &&& notice ==> log.messages[place].kind == MessageKindView::Notice
            &&& !notice ==> log.messages[place].kind == MessageKindView::Privmsg
            &&& after.model.channels[c.isupport.fold(name)].unread
                == c.model.channels[c.isupport.fold(name)].unread
        }),
{
    lemma_said_lines();
    reveal(ClientView::folding);
    let command = if notice {
        "NOTICE"@
    } else {
        "PRIVMSG"@
    };
    let kind = if notice {
        MessageKindView::Notice
    } else {
        MessageKindView::Privmsg
    };
    let line = c.echoed(LineView::plain(command, seq![name, text]));
    assert(line.tags.len() == 0);
    assert(line.tag("time"@) is None && line.tag("msgid"@) is None);
    assert(says(line, kind, text));
    assert(names_channel(c.isupport, name, Seq::empty(), name)) by {
        assert(Seq::<char>::empty() + name =~= name);
    }
    law_what_is_said_in_a_channel_is_kept(
        c.model,
        c.isupport,
        c.latest_ms,
        false,
        line,
        Seq::empty(),
        name,
        kind,
        text,
        c.latest_ms,
    );
}

/// A line of ours as the server relays it.
pub open spec fn relayed(line: LineView, source: SourceView) -> LineView {
    LineView { source: Some(source), ..line }
}

proof fn lemma_own_commands()
    ensures
        upper("TOPIC"@) == "TOPIC"@,
        upper("NICK"@) == "NICK"@,
        upper("PART"@) == "PART"@,
        upper("AWAY"@) == "AWAY"@,
        upper("REDACT"@) == "REDACT"@,
        upper("MARKREAD"@) == "MARKREAD"@,
        upper("TAGMSG"@) == "TAGMSG"@,
{
    reveal_strlit("TOPIC");
    reveal_strlit("NICK");
    reveal_strlit("PART");
    reveal_strlit("AWAY");
    reveal_strlit("REDACT");
    reveal_strlit("MARKREAD");
    reveal_strlit("TAGMSG");
    assert(upper("TOPIC"@) =~= "TOPIC"@);
    assert(upper("NICK"@) =~= "NICK"@);
    assert(upper("PART"@) =~= "PART"@);
    assert(upper("AWAY"@) =~= "AWAY"@);
    assert(upper("REDACT"@) =~= "REDACT"@);
    assert(upper("MARKREAD"@) =~= "MARKREAD"@);
    assert(upper("TAGMSG"@) =~= "TAGMSG"@);
}

/// What we ask for happens once the server relays it: the topic is the one that we set, we are
/// called by the nick that we took, away for the reason that we gave, out of the channel that we
/// left, the message is marked as deleted, and how far we have read is what we said. Setting two
/// different topics therefore shows two different ones.
pub proof fn law_what_we_ask_for_happens(
    m: ModelView,
    f: FeaturesView,
    latest_ms: u64,
    source: SourceView,
    target: Seq<char>,
    text: Seq<char>,
    reason: Option<Seq<char>>,
    place: MessageKey,
)
    requires
        f.fold(source.name) == f.fold(m.me.nick),
        m.channels.dom().finite(),
        m.channels.contains_key(f.fold(target)),
        text.len() > 0,
    ensures
        on_line(
            m,
            f,
            latest_ms,
            false,
            relayed(
                wire_of(CommandView::SetTopic { channel: target, topic: Some(text) })->0,
                source,
            ),
        ).model.channels[f.fold(target)].topic == Some(text),
        on_line(
            m,
            f,
            latest_ms,
            false,
            relayed(wire_of(CommandView::SetTopic { channel: target, topic: None })->0, source),
        ).model.channels[f.fold(target)].topic is None,
        on_line(
            m,
            f,
            latest_ms,
            false,
            relayed(wire_of(CommandView::SetNick { nick: text })->0, source),
        ).model.me.nick == text,
        !on_line(
            m,
            f,
            latest_ms,
            false,
            relayed(wire_of(CommandView::Part { channel: target, reason })->0, source),
        ).model.channels.contains_key(f.fold(target)),
        on_line(
            m,
            f,
            latest_ms,
            false,
            relayed(wire_of(CommandView::SetAway { message: reason })->0, source),
        ).model.me.away == reason,
        on_line(
            m,
            f,
            latest_ms,
            false,
            relayed(wire_of(CommandView::MarkRead { target, timestamp: text })->0, source),
        ).model.channels[f.fold(target)].read_marker == Some(text),
        stands(m, f.fold(target), text, place) ==> log_of(
            on_line(
                m,
                f,
                latest_ms,
                false,
                relayed(
                    wire_of(CommandView::RedactMessage { target, msgid: text, reason })->0,
                    source,
                ),
            ).model,
            f.fold(target),
        ).messages[place].redacted,
{
    lemma_own_commands();
    let topic = relayed(
        wire_of(CommandView::SetTopic { channel: target, topic: Some(text) })->0,
        source,
    );
    law_topic_is_shown(m, f, latest_ms, false, topic, target, text);
    let none = relayed(
        wire_of(CommandView::SetTopic { channel: target, topic: None })->0,
        source,
    );
    law_topic_is_shown(m, f, latest_ms, false, none, target, Seq::empty());
    let nick = relayed(wire_of(CommandView::SetNick { nick: text })->0, source);
    law_new_nick_same_person(m, f, latest_ms, false, nick, text, target, target);
    let part = relayed(wire_of(CommandView::Part { channel: target, reason })->0, source);
    law_we_are_out(m, f, latest_ms, false, part, target, source.name);
    let away = relayed(wire_of(CommandView::SetAway { message: reason })->0, source);
    law_away_and_account(
        m,
        f,
        latest_ms,
        false,
        away,
        target,
        crate::session::ChangeView::Joined { channel: target },
    );
    let read = relayed(wire_of(CommandView::MarkRead { target, timestamp: text })->0, source);
    law_marker_is_the_servers_word(m, f, latest_ms, false, read, target, text);
    let redact = relayed(
        wire_of(CommandView::RedactMessage { target, msgid: text, reason })->0,
        source,
    );
    law_deleted_is_marked_and_kept(m, f, latest_ms, false, redact, target, text, place);
}

/// A reaction that we give is listed as ours once the server relays it, and one that we take back
/// no longer is.
pub proof fn law_our_reactions_happen(
    m: ModelView,
    f: FeaturesView,
    latest_ms: u64,
    source: SourceView,
    target: Seq<char>,
    msgid: Seq<char>,
    emoji: Seq<char>,
    place: MessageKey,
)
    requires
        stands(m, f.fold(target), msgid, place),
    ensures
        has_reacted(
            log_of(
                on_line(
                    m,
                    f,
                    latest_ms,
                    false,
                    relayed(
                        wire_of(CommandView::AddReaction { target, msgid, emoji })->0,
                        source,
                    ),
                ).model,
                f.fold(target),
            ).messages[place],
            emoji,
            f.fold(source.name),
        ),
        !has_reacted(
            log_of(
                on_line(
                    m,
                    f,
                    latest_ms,
                    false,
                    relayed(
                        wire_of(CommandView::RemoveReaction { target, msgid, emoji })->0,
                        source,
                    ),
                ).model,
                f.fold(target),
            ).messages[place],
            emoji,
            f.fold(source.name),
        ),
{
    lemma_own_commands();
    lemma_tag_names();
    lemma_reaction("+draft/react"@, target, msgid, emoji);
    lemma_reaction("+draft/unreact"@, target, msgid, emoji);
    let give = relayed(wire_of(CommandView::AddReaction { target, msgid, emoji })->0, source);
    let take = relayed(wire_of(CommandView::RemoveReaction { target, msgid, emoji })->0, source);
    reveal_strlit("+reply");
    assert("+reply"@.len() == 6);
    reveal_with_fuel(crate::wire::tag_value, 3);
    let other = emoji.push('x');
    assert(other.len() != emoji.len());
    assert(give.tags.drop_last() =~= seq![tag_of("+draft/react"@, emoji)]);
    assert(take.tags.drop_last() =~= seq![tag_of("+draft/unreact"@, emoji)]);
    assert(seq![tag_of("+draft/react"@, emoji)].drop_last() =~= Seq::<TagView>::empty());
    assert(seq![tag_of("+draft/unreact"@, emoji)].drop_last() =~= Seq::<TagView>::empty());
    assert(give.tag("+draft/react"@) == Some(emoji));
    assert(give.reply_tag() == Some(msgid));
    assert(take.tag("+draft/unreact"@) == Some(emoji));
    assert(take.tag("+draft/react"@) is None);
    assert(take.reply_tag() == Some(msgid));
    law_reactions_are_listed(
        m,
        f,
        latest_ms,
        false,
        give,
        target,
        msgid,
        place,
        emoji,
        true,
        f.fold(source.name),
        other,
    );
    law_reactions_are_listed(
        m,
        f,
        latest_ms,
        false,
        take,
        target,
        msgid,
        place,
        emoji,
        false,
        f.fold(source.name),
        other,
    );
}

/// Two commands of one kind that write the same line ask for the same: nothing that a command holds
/// is lost on the way. Only clearing a topic and setting an empty one are the same to a server.
pub proof fn law_nothing_is_lost_on_the_way(a: CommandView, b: CommandView)
    requires
        wire_of(a) is Some,
        wire_of(a) == wire_of(b),
    ensures
        a is Part && b is Part ==> a == b,
        a is SetNick && b is SetNick ==> a == b,
        a is SetAway && b is SetAway ==> a == b,
        a is SetTyping && b is SetTyping ==> a == b,
        a is AddReaction && b is AddReaction ==> a == b,
        a is RemoveReaction && b is RemoveReaction ==> a == b,
        a is RedactMessage && b is RedactMessage ==> a == b,
        a is MarkRead && b is MarkRead ==> a == b,
        a is FetchHistory && b is FetchHistory ==> a == b,
        a is SetMetadata && b is SetMetadata ==> a == b,
        a is SendVoiceSignal && b is SendVoiceSignal ==> a == b,
        a is Quit && b is Quit ==> a == b,
        a is SetTopic && b is SetTopic ==> a->SetTopic_channel == b->SetTopic_channel && (
        a->SetTopic_topic == b->SetTopic_topic || (a->SetTopic_topic is None
            && b->SetTopic_topic->0.len() == 0) || (b->SetTopic_topic is None
            && a->SetTopic_topic->0.len() == 0)),
{
    lemma_tag_names();
    let l = wire_of(a)->0;
    let k = wire_of(b)->0;
    assert(l.params == k.params && l.tags == k.tags && l.command == k.command);
    match (a, b) {
        (CommandView::Part { channel: x, reason: s }, CommandView::Part { channel: y, reason: t })
            => {
            assert(l.params[0] == x && k.params[0] == y);
            if s is Some && t is Some {
                assert(l.params[1] == s->0 && k.params[1] == t->0);
            }
        },
        (CommandView::SetAway { message: s }, CommandView::SetAway { message: t }) => {
            if s is Some && t is Some {
                assert(l.params[0] == s->0 && k.params[0] == t->0);
            }
        },
        (CommandView::Quit { reason: s }, CommandView::Quit { reason: t }) => {
            if s is Some && t is Some {
                assert(l.params[0] == s->0 && k.params[0] == t->0);
            }
        },
        (CommandView::SetNick { nick: x }, CommandView::SetNick { nick: y }) => {
            assert(l.params[0] == x && k.params[0] == y);
        },
        (
            CommandView::SetTopic { channel: x, topic: s },
            CommandView::SetTopic { channel: y, topic: t },
        ) => {
            assert(l.params[0] == x && k.params[0] == y);
            assert(l.params[1] == k.params[1]);
        },
        (
            CommandView::SetTyping { target: x, state: s },
            CommandView::SetTyping { target: y, state: t },
        ) => {
            assert(l.params[0] == x && k.params[0] == y);
            lemma_new_tag(Seq::empty(), tag_of("+typing"@, s.spelling()));
            lemma_new_tag(Seq::empty(), tag_of("+typing"@, t.spelling()));
            assert(l.tags[0] == tag_of("+typing"@, s.spelling()));
            assert(k.tags[0] == tag_of("+typing"@, t.spelling()));
        },
        (
            CommandView::AddReaction { target: x, msgid: i, emoji: e },
            CommandView::AddReaction { target: y, msgid: j, emoji: g },
        ) => {
            lemma_reaction("+draft/react"@, x, i, e);
            lemma_reaction("+draft/react"@, y, j, g);
            assert(l.params[0] == x && k.params[0] == y);
            assert(l.tags[0] == k.tags[0] && l.tags[1] == k.tags[1]);
        },
        (
            CommandView::RemoveReaction { target: x, msgid: i, emoji: e },
            CommandView::RemoveReaction { target: y, msgid: j, emoji: g },
        ) => {
            lemma_reaction("+draft/unreact"@, x, i, e);
            lemma_reaction("+draft/unreact"@, y, j, g);
            assert(l.params[0] == x && k.params[0] == y);
            assert(l.tags[0] == k.tags[0] && l.tags[1] == k.tags[1]);
        },
        (
            CommandView::RedactMessage { target: x, msgid: i, reason: s },
            CommandView::RedactMessage { target: y, msgid: j, reason: t },
        ) => {
            assert(l.params[0] == x && k.params[0] == y);
            assert(l.params[1] == i && k.params[1] == j);
            if s is Some && t is Some {
                assert(l.params[2] == s->0 && k.params[2] == t->0);
            }
        },
        (
            CommandView::MarkRead { target: x, timestamp: s },
            CommandView::MarkRead { target: y, timestamp: t },
        ) => {
            assert(l.params[0] == x && k.params[0] == y);
            lemma_behind("timestamp="@, s, t, l.params[1], k.params[1]);
        },
        (
            CommandView::FetchHistory { target: x, before: s, limit: n },
            CommandView::FetchHistory { target: y, before: t, limit: o },
        ) => {
            assert(l.params[0] == k.params[0] && l.params[1] == k.params[1]);
            assert(l.params[3] == k.params[3]);
            crate::label::lemma_decimal_distinct(n as nat, o as nat);
            if s is Some && t is Some {
                lemma_behind("msgid="@, s->0, t->0, l.params[2], k.params[2]);
            }
        },
        (
            CommandView::SetMetadata { key: x, value: s },
            CommandView::SetMetadata { key: y, value: t },
        ) => {
            assert(l.params[2] == x && k.params[2] == y);
            if s is Some && t is Some {
                assert(l.params[3] == s->0 && k.params[3] == t->0);
            }
        },
        (
            CommandView::SendVoiceSignal { channel: x, signal_json: s },
            CommandView::SendVoiceSignal { channel: y, signal_json: t },
        ) => {
            assert(l.params[0] == x && k.params[0] == y);
            lemma_new_tag(Seq::empty(), tag_of("+obsidianirc/rtc"@, s));
            lemma_new_tag(Seq::empty(), tag_of("+obsidianirc/rtc"@, t));
            assert(l.tags[0] == tag_of("+obsidianirc/rtc"@, s));
            assert(k.tags[0] == tag_of("+obsidianirc/rtc"@, t));
        },
        _ => {},
    }
}

proof fn lemma_behind(
    prefix: Seq<char>,
    s: Seq<char>,
    t: Seq<char>,
    x: Seq<char>,
    y: Seq<char>,
)
    requires
        x == prefix + s,
        y == prefix + t,
        x == y,
    ensures
        s == t,
{
    assert(x.skip(prefix.len() as int) =~= s);
    assert(y.skip(prefix.len() as int) =~= t);
}

} // verus!

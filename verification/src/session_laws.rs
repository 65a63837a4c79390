//! What the lines of a server mean to whoever looks at the model: what was said stands in the log
//! as it was said, and the members, topics, modes, counts and people are those that the server
//! spoke of.

use vstd::prelude::*;

use crate::extensions::{all_words, LinkPreviewView};
use crate::isupport::{user_modes, FeaturesView, ModeChangeView};
use crate::model::{
    granted, ChannelView, ConversationView, LogView, MeView, MembershipView, MessageKey,
    MessageKindView, MessageView, ModelView, PersonView,
};
use crate::session::{
    addressed, all_set, another, is_message, is_prefix, mentioned, on_account, on_away, on_event,
    on_join, on_kick, on_line, on_mark_read, on_metadata, on_mode, on_names, on_nick, on_part,
    on_prop, on_prop_list, on_quit, on_reaction, on_redact, on_reply_row, on_topic, on_topic_reply,
    reacted, status_run, who_row, whox_row, with_all_named, with_entries, with_mode, with_modes,
    with_user_modes, ChangeView,
};
use crate::text::{lemma_first_at_is, upper, words};
use crate::wire::{prefix_granted, prefix_run, server_time, LineView};

verus! {

/// The commands that are told apart when a line is folded in.
proof fn lemma_command_names()
    ensures
        "JOIN"@ =~= seq!['J', 'O', 'I', 'N'],
        "PART"@ =~= seq!['P', 'A', 'R', 'T'],
        "QUIT"@ =~= seq!['Q', 'U', 'I', 'T'],
        "KICK"@ =~= seq!['K', 'I', 'C', 'K'],
        "NICK"@ =~= seq!['N', 'I', 'C', 'K'],
        "TOPIC"@ =~= seq!['T', 'O', 'P', 'I', 'C'],
        "MODE"@ =~= seq!['M', 'O', 'D', 'E'],
        "332"@ =~= seq!['3', '3', '2'],
        "MARKREAD"@ =~= seq!['M', 'A', 'R', 'K', 'R', 'E', 'A', 'D'],
        "REDACT"@ =~= seq!['R', 'E', 'D', 'A', 'C', 'T'],
        "AWAY"@ =~= seq!['A', 'W', 'A', 'Y'],
        "ACCOUNT"@ =~= seq!['A', 'C', 'C', 'O', 'U', 'N', 'T'],
        "METADATA"@ =~= seq!['M', 'E', 'T', 'A', 'D', 'A', 'T', 'A'],
        "760"@ =~= seq!['7', '6', '0'],
        "761"@ =~= seq!['7', '6', '1'],
        "766"@ =~= seq!['7', '6', '6'],
        "353"@ =~= seq!['3', '5', '3'],
        "352"@ =~= seq!['3', '5', '2'],
        "354"@ =~= seq!['3', '5', '4'],
        "PROP"@ =~= seq!['P', 'R', 'O', 'P'],
        "961"@ =~= seq!['9', '6', '1'],
        "PRIVMSG"@ =~= seq!['P', 'R', 'I', 'V', 'M', 'S', 'G'],
        "NOTICE"@ =~= seq!['N', 'O', 'T', 'I', 'C', 'E'],
        "TAGMSG"@ =~= seq!['T', 'A', 'G', 'M', 'S', 'G'],
{
    reveal_strlit("JOIN");
    reveal_strlit("PART");
    reveal_strlit("QUIT");
    reveal_strlit("KICK");
    reveal_strlit("NICK");
    reveal_strlit("TOPIC");
    reveal_strlit("MODE");
    reveal_strlit("332");
    reveal_strlit("MARKREAD");
    reveal_strlit("REDACT");
    reveal_strlit("AWAY");
    reveal_strlit("ACCOUNT");
    reveal_strlit("METADATA");
    reveal_strlit("760");
    reveal_strlit("761");
    reveal_strlit("766");
    reveal_strlit("353");
    reveal_strlit("352");
    reveal_strlit("354");
    reveal_strlit("PROP");
    reveal_strlit("961");
    reveal_strlit("PRIVMSG");
    reveal_strlit("NOTICE");
    reveal_strlit("TAGMSG");
}

/// What a line that is no message does is what its own command does.
#[verifier::rlimit(60)]
#[verifier::spinoff_prover]
pub(crate) proof fn lemma_event_of(m: ModelView, f: FeaturesView, line: LineView)
    ensures
        upper(line.command) == "JOIN"@ ==> !is_message(line) && on_event(m, f, line) == on_join(m, f, line),
        upper(line.command) == "PART"@ ==> !is_message(line) && on_event(m, f, line) == on_part(m, f, line),
        upper(line.command) == "QUIT"@ ==> !is_message(line) && on_event(m, f, line) == on_quit(m, f, line),
        upper(line.command) == "KICK"@ ==> !is_message(line) && on_event(m, f, line) == on_kick(m, f, line),
        upper(line.command) == "NICK"@ ==> !is_message(line) && on_event(m, f, line) == on_nick(m, f, line),
        upper(line.command) == "TOPIC"@ ==> !is_message(line) && on_event(m, f, line) == on_topic(m, f, line),
        upper(line.command) == "MODE"@ ==> !is_message(line) && on_event(m, f, line) == on_mode(m, f, line),
        upper(line.command) == "332"@ ==> !is_message(line) && on_event(m, f, line) == on_topic_reply(m, f, line),
        upper(line.command) == "MARKREAD"@ ==> !is_message(line) && on_event(m, f, line) == on_mark_read(m, f, line),
        upper(line.command) == "REDACT"@ ==> !is_message(line) && on_event(m, f, line) == on_redact(m, f, line),
        upper(line.command) == "AWAY"@ ==> !is_message(line) && on_event(m, f, line) == on_away(m, f, line),
        upper(line.command) == "ACCOUNT"@ ==> !is_message(line) && on_event(m, f, line) == on_account(m, f, line),
        upper(line.command) == "METADATA"@ ==> !is_message(line) && on_event(m, f, line) == on_metadata(m, f, line, 0),
        upper(line.command) == "760"@ ==> !is_message(line) && on_event(m, f, line) == on_metadata(m, f, line, 1),
        upper(line.command) == "761"@ ==> !is_message(line) && on_event(m, f, line) == on_metadata(m, f, line, 1),
        upper(line.command) == "766"@ ==> !is_message(line) && on_event(m, f, line) == on_metadata(m, f, line, 1),
        upper(line.command) == "353"@ ==> !is_message(line) && on_event(m, f, line) == on_names(m, f, line),
        upper(line.command) == "352"@ ==> !is_message(line) && on_event(m, f, line) == on_reply_row(m, f, who_row(line)),
        upper(line.command) == "354"@ ==> !is_message(line) && on_event(m, f, line) == on_reply_row(m, f, whox_row(line)),
        upper(line.command) == "PROP"@ ==> !is_message(line) && on_event(m, f, line) == on_prop(m, f, line),
        upper(line.command) == "961"@ ==> !is_message(line) && on_event(m, f, line) == on_prop_list(m, f, line),
{
    lemma_command_names();
    let command = upper(line.command);
    assert("332"@.len() == 3 && "332"@[0] == '3' && "332"@[1] == '3' && "332"@[2] == '2');
    assert("760"@.len() == 3 && "760"@[0] == '7' && "760"@[1] == '6' && "760"@[2] == '0');
    assert("761"@.len() == 3 && "761"@[0] == '7' && "761"@[1] == '6' && "761"@[2] == '1');
    assert("766"@.len() == 3 && "766"@[0] == '7' && "766"@[1] == '6' && "766"@[2] == '6');
    assert("353"@.len() == 3 && "353"@[0] == '3' && "353"@[1] == '5' && "353"@[2] == '3');
    assert("352"@.len() == 3 && "352"@[0] == '3' && "352"@[1] == '5' && "352"@[2] == '2');
    assert("354"@.len() == 3 && "354"@[0] == '3' && "354"@[1] == '5' && "354"@[2] == '4');
    assert("961"@.len() == 3 && "961"@[0] == '9' && "961"@[1] == '6' && "961"@[2] == '1');
    assert("JOIN"@.len() == 4 && "JOIN"@[0] == 'J' && "JOIN"@[1] == 'O' && "JOIN"@[2] == 'I' && "JOIN"@[3] == 'N');
    assert("PART"@.len() == 4 && "PART"@[0] == 'P' && "PART"@[1] == 'A' && "PART"@[2] == 'R' && "PART"@[3] == 'T');
    assert("QUIT"@.len() == 4 && "QUIT"@[0] == 'Q' && "QUIT"@[1] == 'U' && "QUIT"@[2] == 'I' && "QUIT"@[3] == 'T');
    assert("KICK"@.len() == 4 && "KICK"@[0] == 'K' && "KICK"@[1] == 'I' && "KICK"@[2] == 'C' && "KICK"@[3] == 'K');
    assert("NICK"@.len() == 4 && "NICK"@[0] == 'N' && "NICK"@[1] == 'I' && "NICK"@[2] == 'C' && "NICK"@[3] == 'K');
    assert("MODE"@.len() == 4 && "MODE"@[0] == 'M' && "MODE"@[1] == 'O' && "MODE"@[2] == 'D' && "MODE"@[3] == 'E');
    assert("AWAY"@.len() == 4 && "AWAY"@[0] == 'A' && "AWAY"@[1] == 'W' && "AWAY"@[2] == 'A' && "AWAY"@[3] == 'Y');
    assert("PROP"@.len() == 4 && "PROP"@[0] == 'P' && "PROP"@[1] == 'R' && "PROP"@[2] == 'O' && "PROP"@[3] == 'P');
    assert("TOPIC"@.len() == 5 && "TOPIC"@[0] == 'T' && "TOPIC"@[1] == 'O' && "TOPIC"@[2] == 'P' && "TOPIC"@[3] == 'I' && "TOPIC"@[4] == 'C');
    assert("REDACT"@.len() == 6 && "REDACT"@[0] == 'R' && "REDACT"@[1] == 'E' && "REDACT"@[2] == 'D' && "REDACT"@[3] == 'A' && "REDACT"@[4] == 'C' && "REDACT"@[5] == 'T');
    assert("NOTICE"@.len() == 6 && "NOTICE"@[0] == 'N' && "NOTICE"@[1] == 'O' && "NOTICE"@[2] == 'T' && "NOTICE"@[3] == 'I' && "NOTICE"@[4] == 'C' && "NOTICE"@[5] == 'E');
    assert("TAGMSG"@.len() == 6 && "TAGMSG"@[0] == 'T' && "TAGMSG"@[1] == 'A' && "TAGMSG"@[2] == 'G' && "TAGMSG"@[3] == 'M' && "TAGMSG"@[4] == 'S' && "TAGMSG"@[5] == 'G');
    assert("ACCOUNT"@.len() == 7 && "ACCOUNT"@[0] == 'A' && "ACCOUNT"@[1] == 'C' && "ACCOUNT"@[2] == 'C' && "ACCOUNT"@[3] == 'O' && "ACCOUNT"@[4] == 'U' && "ACCOUNT"@[5] == 'N' && "ACCOUNT"@[6] == 'T');
    assert("PRIVMSG"@.len() == 7 && "PRIVMSG"@[0] == 'P' && "PRIVMSG"@[1] == 'R' && "PRIVMSG"@[2] == 'I' && "PRIVMSG"@[3] == 'V' && "PRIVMSG"@[4] == 'M' && "PRIVMSG"@[5] == 'S' && "PRIVMSG"@[6] == 'G');
    assert("MARKREAD"@.len() == 8 && "MARKREAD"@[0] == 'M' && "MARKREAD"@[1] == 'A' && "MARKREAD"@[2] == 'R' && "MARKREAD"@[3] == 'K' && "MARKREAD"@[4] == 'R' && "MARKREAD"@[5] == 'E' && "MARKREAD"@[6] == 'A' && "MARKREAD"@[7] == 'D');
    assert("METADATA"@.len() == 8 && "METADATA"@[0] == 'M' && "METADATA"@[1] == 'E' && "METADATA"@[2] == 'T' && "METADATA"@[3] == 'A' && "METADATA"@[4] == 'D' && "METADATA"@[5] == 'A' && "METADATA"@[6] == 'T' && "METADATA"@[7] == 'A');
}

/// True when nothing but one channel differs between the two models.
pub open spec fn only_channel(m: ModelView, after: ModelView, key: Seq<char>) -> bool {
    &&& after.channels.contains_key(key)
    &&& forall|k: Seq<char>|
        k != key ==> (#[trigger] after.channels.contains_key(k) == m.channels.contains_key(k))
    &&& forall|k: Seq<char>|
        k != key && #[trigger] m.channels.contains_key(k) ==> after.channels[k] == m.channels[k]
    &&& after.conversations == m.conversations
    &&& after.people == m.people
    &&& after.me == m.me
}

/// When a line happened: when the server says it did, and otherwise at the latest instant seen.
pub open spec fn happened(line: LineView, latest_ms: u64, at: u64) -> bool {
    match line.tag("time"@) {
        Some(text) => match server_time(text) {
            Some(ms) => at == ms,
            None => at == latest_ms,
        },
        None => at == latest_ms,
    }
}

/// True when the log holds nothing that a message could be taken for: not its id, or where it has
/// none, nothing that its sender said in these words at that instant.
pub open spec fn is_news(
    log: LogView,
    msgid: Option<Seq<char>>,
    at: u64,
    sender: Seq<char>,
    text: Seq<char>,
) -> bool {
    match msgid {
        Some(id) => !log.by_msgid.contains_key(id),
        None => forall|k: MessageKey| #[trigger]
            log.messages.contains_key(k) && k.time_ms == at ==> log.messages[k].sender != sender
                || log.messages[k].text != text,
    }
}

/// True when a message is what a line said: from its sender, in its words, with the id, account and
/// reply that its tags carry, and with nothing done to it yet.
pub open spec fn as_said(
    msg: MessageView,
    line: LineView,
    kind: MessageKindView,
    text: Seq<char>,
    own: bool,
    historical: bool,
) -> bool {
    &&& msg.sender == line.sender()
    &&& msg.kind == kind
    &&& msg.text == text
    &&& msg.msgid == line.tag("msgid"@)
    &&& msg.account == line.tag("account"@)
    &&& msg.reply_to == line.reply_tag()
    &&& msg.own == own
    &&& msg.historical == historical
    &&& msg.reactions == Map::<Seq<char>, Seq<Seq<char>>>::empty()
    &&& msg.link_preview is None
    &&& !msg.redacted
}

/// True when a line says this text in a message of this kind: a notice in its own words, an
/// ordinary message in its own words unless they begin as a CTCP does, and a CTCP by what stands
/// behind its command.
pub open spec fn says(line: LineView, kind: MessageKindView, text: Seq<char>) -> bool {
    let command = upper(line.command);
    let body = line.param_or_empty(1);
    ||| command == "NOTICE"@ && kind == MessageKindView::Notice && text == body
    ||| {
        &&& command == "PRIVMSG"@
        &&& body.len() == 0 || body[0] != '\u{1}'
        &&& kind == MessageKindView::Privmsg
        &&& text == body
    }
    ||| {
        &&& command == "PRIVMSG"@
        &&& exists|name: Seq<char>|
            {
                &&& kind == MessageKindView::Ctcp { command: upper(name) }
                &&& !name.contains(' ')
                &&& body == seq!['\u{1}'] + #[trigger] (name + seq![' ']) + text + seq!['\u{1}']
            }
    }
}

/// Of what [`says`] allows, the line says just one thing.
proof fn lemma_says(line: LineView, kind: MessageKindView, text: Seq<char>)
    requires
        says(line, kind, text),
    ensures
        is_message(line),
        crate::session::kind_and_text(upper(line.command), line.param_or_empty(1)) == (kind, text),
        upper(line.command) != "TAGMSG"@,
{
    lemma_command_names();
    let body = line.param_or_empty(1);
    let command = upper(line.command);
    assert("TAGMSG"@[0] == 'T' && "NOTICE"@[0] == 'N' && "PRIVMSG"@[0] == 'P');
    if command == "PRIVMSG"@ && !(body.len() == 0 || body[0] != '\u{1}') {
        let name = choose|name: Seq<char>|
            {
                &&& kind == MessageKindView::Ctcp { command: upper(name) }
                &&& !name.contains(' ')
                &&& body == seq!['\u{1}'] + #[trigger] (name + seq![' ']) + text + seq!['\u{1}']
            };
        let open = body.skip(1);
        let inner = open.drop_last();
        assert(open =~= name + seq![' '] + text + seq!['\u{1}']);
        assert(open.last() == '\u{1}');
        assert(inner =~= name + seq![' '] + text);
        assert forall|i: int| 0 <= i < name.len() implies inner[i] != ' ' by {
            assert(name.contains(name[i]));
        }
        lemma_first_at_is(inner, ' ', name.len());
        assert(inner.take(name.len() as int) =~= name);
        assert(inner.skip(name.len() as int + 1) =~= text);
    }
}

/// The channel that a target names, behind the marks of those in it that it is meant for.
pub open spec fn names_channel(
    f: FeaturesView,
    target: Seq<char>,
    marks: Seq<char>,
    name: Seq<char>,
) -> bool {
    &&& target == marks + name
    &&& forall|i: int| 0 <= i < marks.len() ==> f.is_statusmsg(#[trigger] marks[i])
    &&& f.is_channel(name)
    &&& !f.is_statusmsg(name[0])
}

proof fn lemma_addressed(f: FeaturesView, target: Seq<char>, marks: Seq<char>, name: Seq<char>)
    requires
        names_channel(f, target, marks, name),
    ensures
        addressed(f, target) == name,
    decreases marks.len(),
{
    lemma_status_run(f, target, marks, name);
    assert(target.skip(marks.len() as int) =~= name);
}

proof fn lemma_status_run(f: FeaturesView, target: Seq<char>, marks: Seq<char>, name: Seq<char>)
    requires
        names_channel(f, target, marks, name),
    ensures
        status_run(f, target) == marks.len(),
    decreases marks.len(),
{
    if marks.len() > 0 {
        assert(target[0] == marks[0]);
        assert(target.drop_first() =~= marks.drop_first() + name);
        assert forall|i: int| 0 <= i < marks.drop_first().len() implies f.is_statusmsg(
            #[trigger] marks.drop_first()[i],
        ) by {
            assert(marks.drop_first()[i] == marks[i + 1]);
        }
        lemma_status_run(f, target.drop_first(), marks.drop_first(), name);
    } else {
        assert(target =~= name);
    }
}

/// What is said in a channel that we are in stands in its log as it was said, at the instant that
/// it was said, and is told with the place where it stands. It is unread unless we said it
/// ourselves or it is history, and then it also counts as a mention where it names us. Marks before
/// the channel's name, which say whom in it the message is meant for, make no difference; nothing
/// else changes.
pub proof fn law_what_is_said_in_a_channel_is_kept(
    m: ModelView,
    f: FeaturesView,
    latest_ms: u64,
    historical: bool,
    line: LineView,
    marks: Seq<char>,
    name: Seq<char>,
    kind: MessageKindView,
    text: Seq<char>,
    at: u64,
)
    requires
        says(line, kind, text),
        line.param(0) is Some && names_channel(f, line.param(0)->0, marks, name),
        m.channels.contains_key(f.fold(name)),
        happened(line, latest_ms, at),
        is_news(m.channels[f.fold(name)].log, line.tag("msgid"@), at, line.sender(), text),
        m.channels[f.fold(name)].log.messages.dom().finite(),
        m.channels[f.fold(name)].log.messages.len() < m.channels[f.fold(name)].log.retention,
    ensures
        ({
            let o = on_line(m, f, latest_ms, historical, line);
            let place = MessageKey { time_ms: at, seq: m.next_seq };
            let was = m.channels[f.fold(name)];
            let now = o.model.channels[f.fold(name)];
            let own = f.fold(line.sender()) == f.fold(m.me.nick);
            let counts = !own && !historical;
            &&& only_channel(m, o.model, f.fold(name))
            &&& now.log.messages.contains_key(place)
            &&& as_said(now.log.messages[place], line, kind, text, own, historical)
            &&& now.log.messages[place].key == place
            &&& line.tag("msgid"@) is Some ==> now.log.by_msgid.contains_key(line.tag("msgid"@)->0)
                && now.log.by_msgid[line.tag("msgid"@)->0] == place
            &&& forall|k: MessageKey|
                k != place && #[trigger] was.log.messages.contains_key(k)
                    ==> now.log.messages.contains_key(k) && now.log.messages[k]
                    == was.log.messages[k]
            &&& o.changes == seq![ChangeView::Message { target: name, key: place }]
            &&& o.latest_ms >= latest_ms && o.latest_ms >= at
            &&& o.latest_ms == latest_ms || o.latest_ms == at
            &&& counts && was.unread < u32::MAX ==> now.unread == was.unread + 1
            &&& !counts ==> now.unread == was.unread && now.mentions == was.mentions
            &&& counts && was.mentions < u32::MAX && mentioned(f.casemapping(), text, m.me.nick)
                ==> now.mentions == was.mentions + 1
            &&& !mentioned(f.casemapping(), text, m.me.nick) ==> now.mentions == was.mentions
            &&& now == (ChannelView {
                log: now.log,
                unread: now.unread,
                mentions: now.mentions,
                ..was
            })
        }),
{
    lemma_says(line, kind, text);
    let target = line.param(0)->0;
    lemma_addressed(f, target, marks, name);
    let place = MessageKey { time_ms: at, seq: m.next_seq };
    let msg = crate::session::message_on(m, f, line, upper(line.command), place, historical);
    let c = m.channels[f.fold(name)];
    assert(!c.log.has(msg));
    assert(c.log.with(msg).messages.len() <= c.log.messages.len() + 1);
    assert(c.log.with(msg).trimmed() == c.log.with(msg));
}

/// What is said to us, and what we say to someone, stands in the conversation with them as it was
/// said. What they say is unread unless it is history. A conversation that was not there begins
/// with it.
pub proof fn law_what_is_said_in_private_is_kept(
    m: ModelView,
    f: FeaturesView,
    latest_ms: u64,
    historical: bool,
    line: LineView,
    kind: MessageKindView,
    text: Seq<char>,
    at: u64,
)
    requires
        says(line, kind, text),
        line.param(0) is Some && !f.is_channel(addressed(f, line.param(0)->0)),
        happened(line, latest_ms, at),
        m.retention > 0,
        ({
            let own = f.fold(line.sender()) == f.fold(m.me.nick);
            let with = f.fold(
                if own {
                    line.param(0)->0
                } else {
                    line.sender()
                },
            );
            m.conversations.contains_key(with) ==> {
                let log = m.conversations[with].log;
                &&& is_news(log, line.tag("msgid"@), at, line.sender(), text)
                &&& log.messages.dom().finite()
                &&& log.messages.len() < log.retention
            }
        }),
    ensures
        ({
            let o = on_line(m, f, latest_ms, historical, line);
            let place = MessageKey { time_ms: at, seq: m.next_seq };
            let own = f.fold(line.sender()) == f.fold(m.me.nick);
            let other = if own {
                line.param(0)->0
            } else {
                line.sender()
            };
            let with = f.fold(other);
            let counts = !own && !historical;
            let now = o.model.conversations[with];
            &&& o.model.conversations.contains_key(with)
            &&& now.log.messages.contains_key(place)
            &&& as_said(now.log.messages[place], line, kind, text, own, historical)
            &&& line.tag("msgid"@) is Some ==> now.log.by_msgid.contains_key(line.tag("msgid"@)->0)
                && now.log.by_msgid[line.tag("msgid"@)->0] == place
            &&& o.changes == seq![ChangeView::Message { target: other, key: place }]
            &&& !m.conversations.contains_key(with) ==> {
                &&& now.nick == other
                &&& now.unread == (if counts { 1u32 } else { 0u32 })
                &&& now.log.retention == m.retention
                &&& forall|k: MessageKey| #[trigger] now.log.messages.contains_key(k) ==> k == place
            }
            &&& m.conversations.contains_key(with) ==> {
                let was = m.conversations[with];
                &&& counts && was.unread < u32::MAX ==> now.unread == was.unread + 1
                &&& !counts ==> now.unread == was.unread
                &&& now == (ConversationView { log: now.log, unread: now.unread, ..was })
                &&& forall|k: MessageKey|
                    k != place && #[trigger] was.log.messages.contains_key(k)
                        ==> now.log.messages.contains_key(k) && now.log.messages[k]
                        == was.log.messages[k]
            }
            &&& forall|k: Seq<char>|
                k != with ==> (#[trigger] o.model.conversations.contains_key(k)
                    == m.conversations.contains_key(k))
            &&& forall|k: Seq<char>|
                k != with && #[trigger] m.conversations.contains_key(k) ==> o.model.conversations[k]
                    == m.conversations[k]
            &&& o.model.channels == m.channels && o.model.people == m.people && o.model.me == m.me
        }),
{
    lemma_says(line, kind, text);
    let target = line.param(0)->0;
    let place = MessageKey { time_ms: at, seq: m.next_seq };
    let msg = crate::session::message_on(m, f, line, upper(line.command), place, historical);
    let own = f.fold(line.sender()) == f.fold(m.me.nick);
    let other = if own {
        target
    } else {
        line.sender()
    };
    let c = m.conversation_or_fresh(f.fold(other), other);
    assert(!c.log.has(msg));
    assert(c.log.with(msg).messages.len() <= c.log.messages.len() + 1);
    assert(c.log.with(msg).trimmed() == c.log.with(msg));
}

/// What is said in a channel that we are not in changes nothing that can be seen: no channel comes
/// into being by being spoken in.
pub proof fn law_strange_channels_stay_out(
    m: ModelView,
    f: FeaturesView,
    latest_ms: u64,
    historical: bool,
    line: LineView,
    marks: Seq<char>,
    name: Seq<char>,
)
    requires
        upper(line.command) == "PRIVMSG"@ || upper(line.command) == "NOTICE"@,
        line.param(0) is Some && names_channel(f, line.param(0)->0, marks, name),
        !m.channels.contains_key(f.fold(name)),
    ensures
        ({
            let o = on_line(m, f, latest_ms, historical, line);
            &&& o.changes.len() == 0
            &&& o.model.channels == m.channels && o.model.conversations == m.conversations
            &&& o.model.people == m.people && o.model.me == m.me
        }),
{
    lemma_command_names();
    assert("TAGMSG"@[0] == 'T' && "NOTICE"@[0] == 'N' && "PRIVMSG"@[0] == 'P');
    lemma_addressed(f, line.param(0)->0, marks, name);
}

/// Our own joining brings a channel into being, under the name that the server spells, with nothing
/// in it yet. One that we were in already stays as it was.
pub proof fn law_we_join(
    m: ModelView,
    f: FeaturesView,
    latest_ms: u64,
    historical: bool,
    line: LineView,
    channel: Seq<char>,
)
    requires
        upper(line.command) == "JOIN"@,
        line.param(0) == Some(channel),
        f.fold(line.sender()) == f.fold(m.me.nick),
    ensures
        ({
            let o = on_line(m, f, latest_ms, historical, line);
            let key = f.fold(channel);
            let now = o.model.channels[key];
            &&& only_channel(m, o.model, key)
            &&& o.changes == seq![ChangeView::Joined { channel }]
            &&& m.channels.contains_key(key) ==> now == m.channels[key]
            &&& !m.channels.contains_key(key) ==> {
                &&& now.name == channel
                &&& now.topic is None && now.topic_by is None && now.read_marker is None
                &&& now.unread == 0 && now.mentions == 0
                &&& now.members == Map::<Seq<char>, MembershipView>::empty()
                &&& now.modes == Map::<char, Option<Seq<char>>>::empty()
                &&& now.named_modes == Map::<Seq<char>, Option<Seq<char>>>::empty()
                &&& now.metadata == Map::<Seq<char>, Seq<char>>::empty()
                &&& now.log.messages == Map::<MessageKey, MessageView>::empty()
                &&& now.log.by_msgid == Map::<Seq<char>, MessageKey>::empty()
                &&& now.log.retention == m.retention
            }
        }),
{
    lemma_event_of(m, f, line);
}

/// True when nothing but one person differs between the two models.
pub open spec fn same_people_but(m: ModelView, after: ModelView, key: Seq<char>) -> bool {
    &&& forall|k: Seq<char>|
        k != key ==> (#[trigger] after.people.contains_key(k) == m.people.contains_key(k))
    &&& forall|k: Seq<char>|
        k != key && #[trigger] m.people.contains_key(k) ==> after.people[k] == m.people[k]
}

/// True when nothing but one member differs between the two.
pub open spec fn same_members_but(
    was: Map<Seq<char>, MembershipView>,
    now: Map<Seq<char>, MembershipView>,
    key: Seq<char>,
) -> bool {
    &&& forall|k: Seq<char>| k != key ==> (#[trigger] now.contains_key(k) == was.contains_key(k))
    &&& forall|k: Seq<char>| k != key && #[trigger] was.contains_key(k) ==> now[k] == was[k]
}

/// True when nothing but one channel differs between the channels of the two models.
pub open spec fn same_channels_but(m: ModelView, after: ModelView, key: Seq<char>) -> bool {
    &&& forall|k: Seq<char>|
        k != key ==> (#[trigger] after.channels.contains_key(k) == m.channels.contains_key(k))
    &&& forall|k: Seq<char>|
        k != key && #[trigger] m.channels.contains_key(k) ==> after.channels[k] == m.channels[k]
}

/// Someone who joins a channel that we are in is a member of it from then on, without prefixes
/// unless they had some there, and known under the nick that they spell. The account that the line
/// names is theirs, and where it names none what was known of it stays. Everyone else stays.
pub proof fn law_someone_joins(
    m: ModelView,
    f: FeaturesView,
    latest_ms: u64,
    historical: bool,
    line: LineView,
    channel: Seq<char>,
)
    requires
        upper(line.command) == "JOIN"@,
        line.param(0) == Some(channel),
        f.fold(line.sender()) != f.fold(m.me.nick),
        m.channels.contains_key(f.fold(channel)),
    ensures
        ({
            let o = on_line(m, f, latest_ms, historical, line);
            let key = f.fold(channel);
            let who = f.fold(line.sender());
            let was = m.channels[key];
            let now = o.model.channels[key];
            let person = o.model.people[who];
            &&& o.changes == seq![ChangeView::MembersChanged { channel }]
            &&& same_channels_but(m, o.model, key)
            &&& o.model.channels.contains_key(key)
            &&& now == (ChannelView { members: now.members, ..was })
            &&& now.members.contains_key(who)
            &&& was.members.contains_key(who) ==> now.members[who] == was.members[who]
            &&& !was.members.contains_key(who) ==> now.members[who].prefixes.len() == 0
            &&& same_members_but(was.members, now.members, who)
            &&& o.model.people.contains_key(who)
            &&& person.nick == line.sender()
            &&& line.param(1) is Some && line.param(1)->0 != "*"@ ==> person.account == line.param(1)
            &&& m.people.contains_key(who) ==> {
                &&& person == (PersonView {
                    nick: person.nick,
                    account: person.account,
                    ..m.people[who]
                })
                &&& line.param(1) is None || line.param(1)->0 == "*"@ ==> person.account
                    == m.people[who].account
            }
            &&& !m.people.contains_key(who) && (line.param(1) is None || line.param(1)->0 == "*"@)
                ==> person.account is None
            &&& same_people_but(m, o.model, who)
            &&& o.model.conversations == m.conversations && o.model.me == m.me
        }),
{
    lemma_event_of(m, f, line);
}

/// True when a line says that someone is no longer in a channel: they left it, or were removed.
pub open spec fn removes(line: LineView, channel: Seq<char>, who: Seq<char>) -> bool {
    ||| {
        &&& upper(line.command) == "PART"@
        &&& line.param(0) == Some(channel)
        &&& who == line.sender()
    }
    ||| {
        &&& upper(line.command) == "KICK"@
        &&& line.param(0) == Some(channel)
        &&& line.param(1) == Some(who)
    }
}

/// A channel that we left, or were removed from, is gone, and nothing else is.
pub proof fn law_we_are_out(
    m: ModelView,
    f: FeaturesView,
    latest_ms: u64,
    historical: bool,
    line: LineView,
    channel: Seq<char>,
    who: Seq<char>,
)
    requires
        removes(line, channel, who),
        f.fold(who) == f.fold(m.me.nick),
    ensures
        ({
            let o = on_line(m, f, latest_ms, historical, line);
            &&& !o.model.channels.contains_key(f.fold(channel))
            &&& same_channels_but(m, o.model, f.fold(channel))
            &&& o.changes == seq![ChangeView::Parted { channel }]
            &&& o.model.conversations == m.conversations && o.model.people == m.people
            &&& o.model.me == m.me
        }),
{
    lemma_event_of(m, f, line);
}

/// True when someone is a member of a channel.
pub open spec fn is_in(m: ModelView, channel: Seq<char>, who: Seq<char>) -> bool {
    m.channels.contains_key(channel) && m.channels[channel].members.contains_key(who)
}

/// True when the people of the second model are those of the first that are still of interest: whom
/// we share a channel or a conversation with, and ourselves.
pub open spec fn strangers_are_gone(m: ModelView, after: ModelView) -> bool {
    forall|k: Seq<char>|
        #![trigger after.people.contains_key(k)]
        {
            let near = after.conversations.contains_key(k) || (exists|c: Seq<char>|
                #[trigger] is_in(after, c, k)) || m.people[k].nick == after.me.nick;
            &&& after.people.contains_key(k) <==> m.people.contains_key(k) && near
            &&& after.people.contains_key(k) ==> after.people[k] == m.people[k]
        }
}

proof fn lemma_strangers(m: ModelView)
    ensures
        strangers_are_gone(m, m.without_strangers()),
{
    let after = m.without_strangers();
    assert forall|k: Seq<char>|
        #![trigger after.people.contains_key(k)]
        m.is_member_somewhere(k) == (exists|c: Seq<char>| #[trigger] is_in(after, c, k)) by {
        if m.is_member_somewhere(k) {
            let c = choose|c: Seq<char>| #[trigger]
                m.channels.contains_key(c) && m.channels[c].members.contains_key(k);
            assert(is_in(after, c, k));
        }
        if exists|c: Seq<char>| #[trigger] is_in(after, c, k) {
            let c = choose|c: Seq<char>| #[trigger] is_in(after, c, k);
            assert(m.channels.contains_key(c));
        }
    }
}

/// Someone else who leaves a channel, or is removed from it, is no longer a member of it, and every
/// other member and channel stays. Whoever we then share nothing with is forgotten, and nobody
/// else.
pub proof fn law_someone_is_out(
    m: ModelView,
    f: FeaturesView,
    latest_ms: u64,
    historical: bool,
    line: LineView,
    channel: Seq<char>,
    who: Seq<char>,
)
    requires
        removes(line, channel, who),
        f.fold(who) != f.fold(m.me.nick),
    ensures
        ({
            let o = on_line(m, f, latest_ms, historical, line);
            let key = f.fold(channel);
            &&& o.changes == seq![ChangeView::MembersChanged { channel }]
            &&& same_channels_but(m, o.model, key)
            &&& o.model.channels.contains_key(key) == m.channels.contains_key(key)
            &&& !is_in(o.model, key, f.fold(who))
            &&& m.channels.contains_key(key) ==> {
                let now = o.model.channels[key];
                &&& now == (ChannelView { members: now.members, ..m.channels[key] })
                &&& same_members_but(m.channels[key].members, now.members, f.fold(who))
            }
            &&& strangers_are_gone(m, o.model)
            &&& o.model.conversations == m.conversations && o.model.me == m.me
        }),
{
    lemma_event_of(m, f, line);
    let key = f.fold(channel);
    let left = if m.channels.contains_key(key) {
        let c = m.channels[key];
        m.with_channel(key, ChannelView { members: c.members.remove(f.fold(who)), ..c })
    } else {
        m
    };
    lemma_strangers(left);
}

/// Whoever leaves the network is a member of no channel any more, and everyone else stays where
/// they were. The channels that they were in are told, and no other.
pub proof fn law_someone_quits(
    m: ModelView,
    f: FeaturesView,
    latest_ms: u64,
    historical: bool,
    line: LineView,
    channel: Seq<char>,
    change: ChangeView,
)
    requires
        upper(line.command) == "QUIT"@,
        m.channels.dom().finite(),
    ensures
        ({
            let o = on_line(m, f, latest_ms, historical, line);
            let who = f.fold(line.sender());
            &&& !is_in(o.model, channel, who)
            &&& o.model.channels.contains_key(channel) == m.channels.contains_key(channel)
            &&& m.channels.contains_key(channel) ==> {
                let now = o.model.channels[channel];
                &&& now == (ChannelView { members: now.members, ..m.channels[channel] })
                &&& same_members_but(m.channels[channel].members, now.members, who)
            }
            &&& is_in(m, channel, who) ==> o.changes.contains(
                ChangeView::MembersChanged { channel: m.channels[channel].name },
            )
            &&& o.changes.contains(change) ==> exists|c: Seq<char>| #[trigger]
                is_in(m, c, who) && change == (ChangeView::MembersChanged {
                    channel: m.channels[c].name,
                })
            &&& strangers_are_gone(m, o.model)
            &&& o.model.conversations == m.conversations && o.model.me == m.me
        }),
{
    lemma_event_of(m, f, line);
    let who = f.fold(line.sender());
    lemma_strangers(m.without_member(who));
    lemma_told(m, who, channel, change);
}

/// The channels that someone is in are those that are told.
proof fn lemma_told(m: ModelView, who: Seq<char>, channel: Seq<char>, change: ChangeView)
    requires
        m.channels.dom().finite(),
    ensures
        ({
            let changes = crate::session::members_changed(m, m.channels_of(who));
            &&& is_in(m, channel, who) ==> changes.contains(
                ChangeView::MembersChanged { channel: m.channels[channel].name },
            )
            &&& changes.contains(change) ==> exists|c: Seq<char>| #[trigger]
                is_in(m, c, who) && change == (ChangeView::MembersChanged {
                    channel: m.channels[c].name,
                })
        }),
{
    let all = crate::sorted::in_order(m.channels.dom());
    crate::sorted::lemma_has_order(m.channels.dom());
    let holds = |k: Seq<char>| m.channels[k].members.contains_key(who);
    let keys = m.channels_of(who);
    let changes = crate::session::members_changed(m, keys);
    assert(keys =~= all.filter(holds));
    if is_in(m, channel, who) {
        assert(m.channels.dom().contains(channel));
        assert(all.contains(channel));
        all.lemma_filter_contains(holds, all.index_of(channel));
        assert(keys.contains(channel));
        assert(changes[keys.index_of(channel)] == (ChangeView::MembersChanged {
            channel: m.channels[channel].name,
        }));
    }
    if changes.contains(change) {
        let i = changes.index_of(change);
        all.lemma_filter_contains_rev(holds, keys[i]);
        all.lemma_filter_pred(holds, i);
        assert(all.contains(keys[i]));
        assert(m.channels.dom().contains(keys[i]));
        assert(is_in(m, keys[i], who));
    }
}

/// Someone who takes a new nick is the same person under it: in every channel that they were in
/// they are a member under the new nick with the prefixes that they had, what is known of them and
/// what was said with them goes on under it, and nothing is left under the old one. Where it is us,
/// we are called by it. Nobody else is touched.
pub proof fn law_new_nick_same_person(
    m: ModelView,
    f: FeaturesView,
    latest_ms: u64,
    historical: bool,
    line: LineView,
    to: Seq<char>,
    channel: Seq<char>,
    other: Seq<char>,
)
    requires
        upper(line.command) == "NICK"@,
        line.param(0) == Some(to),
    ensures
        ({
            let o = on_line(m, f, latest_ms, historical, line);
            let a = f.fold(line.sender());
            let b = f.fold(to);
            &&& o.changes == seq![ChangeView::NickChanged { from: line.sender(), to }]
            &&& f.fold(m.me.nick) == a ==> o.model.me.nick == to
            &&& f.fold(m.me.nick) != a ==> o.model.me.nick == m.me.nick
            &&& o.model.me == (MeView { nick: o.model.me.nick, ..m.me })
            &&& o.model.channels.contains_key(channel) == m.channels.contains_key(channel)
            &&& m.channels.contains_key(channel) ==> {
                let was = m.channels[channel];
                let now = o.model.channels[channel];
                &&& now == (ChannelView { members: now.members, ..was })
                &&& was.members.contains_key(a) ==> now.members.contains_key(b) && now.members[b]
                    == was.members[a]
                &&& was.members.contains_key(a) && a != b ==> !now.members.contains_key(a)
                &&& !was.members.contains_key(a) ==> now.members == was.members
                &&& other != a && other != b ==> now.members.contains_key(other)
                    == was.members.contains_key(other)
                &&& other != a && other != b && was.members.contains_key(other)
                    ==> now.members[other] == was.members[other]
            }
            &&& m.people.contains_key(a) ==> o.model.people.contains_key(b) && o.model.people[b] == (
            PersonView { nick: to, ..m.people[a] })
            &&& a != b && m.people.contains_key(a) ==> !o.model.people.contains_key(a)
            &&& m.conversations.contains_key(a) ==> o.model.conversations.contains_key(b)
                && o.model.conversations[b] == (ConversationView {
                nick: to,
                ..m.conversations[a]
            })
            &&& a != b && m.conversations.contains_key(a) ==> !o.model.conversations.contains_key(a)
            &&& other != a && other != b ==> {
                &&& o.model.people.contains_key(other) == m.people.contains_key(other)
                &&& m.people.contains_key(other) ==> o.model.people[other] == m.people[other]
                &&& o.model.conversations.contains_key(other) == m.conversations.contains_key(other)
                &&& m.conversations.contains_key(other) ==> o.model.conversations[other]
                    == m.conversations[other]
            }
        }),
{
    lemma_event_of(m, f, line);
}

/// A topic that is set is the channel's topic, word for word, by whoever set it, and an empty one
/// clears it. So is the topic that the server tells us of, which says nothing of who set it.
/// Nothing else changes, and a channel that we are not in stays out.
pub proof fn law_topic_is_shown(
    m: ModelView,
    f: FeaturesView,
    latest_ms: u64,
    historical: bool,
    line: LineView,
    channel: Seq<char>,
    text: Seq<char>,
)
    requires
        ({
            ||| {
                &&& upper(line.command) == "TOPIC"@
                &&& line.params.len() >= 2
                &&& line.params[0] == channel && line.params[1] == text
            }
            ||| {
                &&& upper(line.command) == "332"@
                &&& line.params.len() >= 3
                &&& line.params[1] == channel && line.params[2] == text
            }
        }),
    ensures
        ({
            let o = on_line(m, f, latest_ms, historical, line);
            let key = f.fold(channel);
            let now = o.model.channels[key];
            &&& m.channels.contains_key(key) ==> {
                &&& only_channel(m, o.model, key)
                &&& o.changes == seq![ChangeView::TopicChanged { channel }]
                &&& text.len() > 0 ==> now.topic == Some(text)
                &&& text.len() == 0 ==> now.topic is None
                &&& upper(line.command) == "TOPIC"@ ==> now.topic_by == Some(line.sender())
                &&& upper(line.command) == "332"@ ==> now.topic_by == m.channels[key].topic_by
                &&& now == (ChannelView {
                    topic: now.topic,
                    topic_by: now.topic_by,
                    ..m.channels[key]
                })
            }
            &&& !m.channels.contains_key(key) ==> o.model == m && o.changes.len() == 0
        }),
{
    lemma_event_of(m, f, line);
    lemma_command_names();
    assert("332"@[0] == '3' && "TOPIC"@[0] == 'T');
}

/// The log of a channel, or else of a conversation.
pub open spec fn log_of(m: ModelView, key: Seq<char>) -> LogView {
    if m.channels.contains_key(key) {
        m.channels[key].log
    } else {
        m.conversations[key].log
    }
}

/// True when a message with this id stands at this place of a channel or a conversation.
pub open spec fn stands(
    m: ModelView,
    key: Seq<char>,
    msgid: Seq<char>,
    place: MessageKey,
) -> bool {
    &&& m.channels.contains_key(key) || m.conversations.contains_key(key)
    &&& log_of(m, key).by_msgid.contains_key(msgid)
    &&& log_of(m, key).by_msgid[msgid] == place
    &&& log_of(m, key).messages.contains_key(place)
}

/// True when nothing but one message of one log differs between the two models.
pub open spec fn only_message(
    m: ModelView,
    after: ModelView,
    key: Seq<char>,
    place: MessageKey,
) -> bool {
    &&& same_channels_but(m, after, key)
    &&& after.channels.contains_key(key) == m.channels.contains_key(key)
    &&& m.channels.contains_key(key) ==> after.channels[key] == (ChannelView {
        log: after.channels[key].log,
        ..m.channels[key]
    }) && after.conversations == m.conversations
    &&& !m.channels.contains_key(key) ==> {
        &&& after.conversations.contains_key(key)
        &&& after.conversations[key] == (ConversationView {
            log: after.conversations[key].log,
            ..m.conversations[key]
        })
        &&& forall|k: Seq<char>|
            k != key ==> (#[trigger] after.conversations.contains_key(k)
                == m.conversations.contains_key(k))
        &&& forall|k: Seq<char>|
            k != key && #[trigger] m.conversations.contains_key(k) ==> after.conversations[k]
                == m.conversations[k]
    }
    &&& log_of(after, key).by_msgid == log_of(m, key).by_msgid
    &&& log_of(after, key).retention == log_of(m, key).retention
    &&& log_of(after, key).messages.contains_key(place)
    &&& forall|k: MessageKey|
        k != place ==> (#[trigger] log_of(after, key).messages.contains_key(k) == log_of(
            m,
            key,
        ).messages.contains_key(k))
    &&& forall|k: MessageKey|
        k != place && #[trigger] log_of(m, key).messages.contains_key(k) ==> log_of(
            after,
            key,
        ).messages[k] == log_of(m, key).messages[k]
    &&& after.people == m.people && after.me == m.me
}

/// A message that is deleted is marked so, and keeps all that it said. A deletion of a message that
/// is not held changes nothing.
pub proof fn law_deleted_is_marked_and_kept(
    m: ModelView,
    f: FeaturesView,
    latest_ms: u64,
    historical: bool,
    line: LineView,
    target: Seq<char>,
    msgid: Seq<char>,
    place: MessageKey,
)
    requires
        upper(line.command) == "REDACT"@,
        line.params.len() >= 2,
        line.params[0] == target && line.params[1] == msgid,
    ensures
        ({
            let o = on_line(m, f, latest_ms, historical, line);
            let key = f.fold(target);
            &&& stands(m, key, msgid, place) ==> {
                &&& only_message(m, o.model, key, place)
                &&& log_of(o.model, key).messages[place] == (MessageView {
                    redacted: true,
                    ..log_of(m, key).messages[place]
                })
                &&& o.changes == seq![ChangeView::Redacted { target, msgid }]
            }
            &&& (forall|p: MessageKey| !stands(m, key, msgid, p)) ==> o.model == m
                && o.changes.len() == 0
        }),
{
    lemma_event_of(m, f, line);
    let key = f.fold(target);
    if m.message_at(key, msgid) is Some {
        assert(stands(m, key, msgid, log_of(m, key).by_msgid[msgid]));
    }
}

/// True when someone has reacted to a message with an emoji.
pub open spec fn has_reacted(msg: MessageView, emoji: Seq<char>, who: Seq<char>) -> bool {
    msg.reactions.contains_key(emoji) && msg.reactions[emoji].contains(who)
}

/// Whoever reacts to a message is listed under the emoji from then on, and whoever takes it back no
/// longer is. Everyone else's reactions to it stay, and so does all else that it says.
pub proof fn law_reactions_are_listed(
    m: ModelView,
    f: FeaturesView,
    latest_ms: u64,
    historical: bool,
    line: LineView,
    target: Seq<char>,
    msgid: Seq<char>,
    place: MessageKey,
    emoji: Seq<char>,
    adding: bool,
    who: Seq<char>,
    other: Seq<char>,
)
    requires
        upper(line.command) == "TAGMSG"@,
        line.param(0) == Some(target),
        line.reply_tag() == Some(msgid),
        adding ==> line.tag("+draft/react"@) == Some(emoji),
        !adding ==> line.tag("+draft/react"@) is None && line.tag("+draft/unreact"@) == Some(emoji),
        stands(m, f.fold(target), msgid, place),
        who != f.fold(line.sender()) || other != emoji,
    ensures
        ({
            let o = on_line(m, f, latest_ms, historical, line);
            let key = f.fold(target);
            let was = log_of(m, key).messages[place];
            let now = log_of(o.model, key).messages[place];
            &&& only_message(m, o.model, key, place)
            &&& o.changes == seq![ChangeView::Reacted { target, msgid }]
            &&& has_reacted(now, emoji, f.fold(line.sender())) == adding
            &&& has_reacted(now, other, who) == has_reacted(was, other, who)
            &&& now == (MessageView { reactions: now.reactions, ..was })
            &&& now.reactions.contains_key(emoji) && !adding ==> now.reactions[emoji].len() > 0
        }),
{
    lemma_command_names();
    assert("TAGMSG"@[0] == 'T' && "NOTICE"@[0] == 'N' && "PRIVMSG"@[0] == 'P');
    let key = f.fold(target);
    let was = log_of(m, key).messages[place];
    assert(m.message_at(key, msgid) == Some(was));
    assert(on_reaction(m, f, line) is Some);
    let me = f.fold(line.sender());
    let had = if was.reactions.contains_key(emoji) {
        was.reactions[emoji]
    } else {
        Seq::empty()
    };
    let left = had.filter(another(me));
    if adding {
        assert(had.push(me)[had.len() as int] == me);
        if had.contains(who) {
            assert(had.push(me)[had.index_of(who)] == who);
        }
        if had.push(me).contains(who) && who != me {
            assert(had[had.push(me).index_of(who)] == who);
        }
    } else {
        if left.contains(me) {
            had.lemma_filter_pred(another(me), left.index_of(me));
        }
        if had.contains(who) && who != me {
            had.lemma_filter_contains(another(me), had.index_of(who));
        }
        if left.contains(who) {
            had.lemma_filter_contains_rev(another(me), who);
        }
        if left.len() == 0 && had.contains(who) && who != me {
            assert(left.contains(who));
        }
    }
}

/// A preview that the server built is attached to the message that it describes, with the title,
/// snippet and image that its tags carry. One of a message that is not held changes nothing that
/// can be seen, and never becomes a message of its own.
pub proof fn law_preview_is_attached(
    m: ModelView,
    f: FeaturesView,
    latest_ms: u64,
    historical: bool,
    line: LineView,
    target: Seq<char>,
    msgid: Seq<char>,
    place: MessageKey,
    title: Seq<char>,
)
    requires
        upper(line.command) == "TAGMSG"@,
        line.param(0) == Some(target),
        line.reply_tag() == Some(msgid),
        line.tag("+draft/react"@) is None && line.tag("+draft/unreact"@) is None,
        line.tag("obsidianirc/link-preview-title"@) == Some(title),
    ensures
        ({
            let o = on_line(m, f, latest_ms, historical, line);
            let key = f.fold(target);
            let preview = LinkPreviewView {
                title,
                snippet: line.tag("obsidianirc/link-preview-snippet"@),
                image: line.tag("obsidianirc/link-preview-meta"@),
            };
            &&& stands(m, key, msgid, place) ==> {
                &&& only_message(m, o.model, key, place)
                &&& log_of(o.model, key).messages[place] == (MessageView {
                    link_preview: Some(preview),
                    ..log_of(m, key).messages[place]
                })
                &&& o.changes == seq![
                    ChangeView::Message { target, key: log_of(m, key).messages[place].key },
                ]
            }
            &&& (forall|p: MessageKey| !stands(m, key, msgid, p)) ==> o.model == m
                && o.changes.len() == 0
        }),
{
    lemma_command_names();
    assert("TAGMSG"@[0] == 'T' && "NOTICE"@[0] == 'N' && "PRIVMSG"@[0] == 'P');
    let key = f.fold(target);
    if m.message_at(key, msgid) is Some {
        assert(stands(m, key, msgid, log_of(m, key).by_msgid[msgid]));
    }
}

/// Someone who goes away is away for the reason that they gave, and back once they give none;
/// someone who logs in is logged in as the account that the server names, and out where it names
/// `*`. Where that is us, we are so too. Each says nothing of the other, nor of anyone else.
pub proof fn law_away_and_account(
    m: ModelView,
    f: FeaturesView,
    latest_ms: u64,
    historical: bool,
    line: LineView,
    channel: Seq<char>,
    change: ChangeView,
)
    requires
        upper(line.command) == "AWAY"@ || upper(line.command) == "ACCOUNT"@,
        m.channels.dom().finite(),
    ensures
        ({
            let o = on_line(m, f, latest_ms, historical, line);
            let key = f.fold(line.sender());
            let now = o.model.people[key];
            let is_me = f.fold(m.me.nick) == key;
            &&& o.model.people.contains_key(key)
            &&& upper(line.command) == "AWAY"@ ==> now.away == line.param(0)
            &&& upper(line.command) == "ACCOUNT"@ && line.param(0) is Some && line.param(0)->0
                != "*"@ ==> now.account == line.param(0)
            &&& upper(line.command) == "ACCOUNT"@ && !(line.param(0) is Some && line.param(0)->0
                != "*"@) ==> now.account is None
            &&& m.people.contains_key(key) ==> {
                let was = m.people[key];
                &&& upper(line.command) == "AWAY"@ ==> now == (PersonView { away: now.away, ..was })
                &&& upper(line.command) == "ACCOUNT"@ ==> now == (PersonView {
                    account: now.account,
                    ..was
                })
            }
            &&& !m.people.contains_key(key) ==> now.nick == line.sender()
            &&& is_me ==> o.model.me == (MeView { away: now.away, account: now.account, ..m.me })
            &&& !is_me ==> o.model.me == m.me
            &&& same_people_but(m, o.model, key)
            &&& o.model.channels == m.channels && o.model.conversations == m.conversations
            &&& is_in(m, channel, key) ==> o.changes.contains(
                ChangeView::MembersChanged { channel: m.channels[channel].name },
            )
            &&& o.changes.contains(change) ==> exists|c: Seq<char>| #[trigger]
                is_in(m, c, key) && change == (ChangeView::MembersChanged {
                    channel: m.channels[c].name,
                })
        }),
{
    lemma_event_of(m, f, line);
    lemma_command_names();
    assert("AWAY"@.len() == 4 && "ACCOUNT"@.len() == 7);
    lemma_told(m, f.fold(line.sender()), channel, change);
}

/// The value that a metadata line gives a key, or nothing where it clears it.
pub open spec fn metadata_line(
    line: LineView,
    target: Seq<char>,
    key: Seq<char>,
    value: Option<Seq<char>>,
) -> bool {
    ||| {
        &&& upper(line.command) == "METADATA"@
        &&& line.param(0) == Some(target) && line.param(1) == Some(key)
        &&& line.param(3) == value
        &&& !line.is("766"@)
    }
    ||| {
        &&& upper(line.command) == "760"@ || upper(line.command) == "761"@
        &&& line.param(1) == Some(target) && line.param(2) == Some(key)
        &&& line.param(4) == value
        &&& !line.is("766"@)
    }
    ||| {
        &&& upper(line.command) == "766"@ && line.is("766"@)
        &&& line.param(1) == Some(target) && line.param(2) == Some(key)
        &&& value is None
    }
}

/// True when a store holds this under a key, or nothing there where there is none, and holds
/// everything else as before.
pub open spec fn store_with(
    was: Map<Seq<char>, Seq<char>>,
    now: Map<Seq<char>, Seq<char>>,
    key: Seq<char>,
    value: Option<Seq<char>>,
) -> bool {
    &&& value is Some ==> now.contains_key(key) && now[key] == value->0
    &&& value is None ==> !now.contains_key(key)
    &&& forall|k: Seq<char>| k != key ==> (#[trigger] now.contains_key(k) == was.contains_key(k))
    &&& forall|k: Seq<char>| k != key && #[trigger] was.contains_key(k) ==> now[k] == was[k]
}

/// Metadata that the server gives a channel or a person is theirs, key by key, and a key without a
/// value is cleared. A target of `*` is us, and what is ours is held with us too.
pub proof fn law_metadata_is_held(
    m: ModelView,
    f: FeaturesView,
    latest_ms: u64,
    historical: bool,
    line: LineView,
    named: Seq<char>,
    key: Seq<char>,
    value: Option<Seq<char>>,
)
    requires
        metadata_line(line, named, key, value),
    ensures
        ({
            let o = on_line(m, f, latest_ms, historical, line);
            let target = if named == "*"@ {
                m.me.nick
            } else {
                named
            };
            let at = f.fold(target);
            let is_me = f.fold(m.me.nick) == at;
            &&& f.is_channel(target) && m.channels.contains_key(at) ==> {
                let now = o.model.channels[at];
                &&& only_channel(m, o.model, at)
                &&& store_with(m.channels[at].metadata, now.metadata, key, value)
                &&& now == (ChannelView { metadata: now.metadata, ..m.channels[at] })
                &&& o.changes == seq![ChangeView::Metadata { target, key }]
            }
            &&& f.is_channel(target) && !m.channels.contains_key(at) ==> o.model == m
                && o.changes.len() == 0
            &&& !f.is_channel(target) ==> {
                let now = o.model.people[at];
                &&& o.model.people.contains_key(at)
                &&& m.people.contains_key(at) ==> {
                    &&& store_with(m.people[at].metadata, now.metadata, key, value)
                    &&& now == (PersonView { metadata: now.metadata, ..m.people[at] })
                }
                &&& !m.people.contains_key(at) ==> now.nick == target && store_with(
                    Map::empty(),
                    now.metadata,
                    key,
                    value,
                )
                &&& same_people_but(m, o.model, at)
                &&& is_me ==> store_with(m.me.metadata, o.model.me.metadata, key, value)
                &&& o.model.me == (MeView { metadata: o.model.me.metadata, ..m.me })
                &&& !is_me ==> o.model.me == m.me
                &&& o.model.channels == m.channels && o.model.conversations == m.conversations
                &&& o.changes == seq![ChangeView::Metadata { target, key }]
            }
        }),
{
    lemma_event_of(m, f, line);
    lemma_command_names();
    assert("METADATA"@.len() == 8);
    assert("760"@[2] == '0' && "761"@[2] == '1' && "766"@[2] == '6' && "760"@.len() == 3
        && "761"@.len() == 3 && "766"@.len() == 3);
}

/// True when an entry of a member list names someone with these prefixes, in its bare form or as a
/// full mask.
pub open spec fn entry_of(
    f: FeaturesView,
    entry: Seq<char>,
    prefixes: Seq<char>,
    nick: Seq<char>,
    mask: Seq<char>,
) -> bool {
    &&& entry == prefixes + nick + mask
    &&& forall|i: int|
        0 <= i < prefixes.len() ==> crate::wire::prefix_chars(f.prefix).contains(
            #[trigger] prefixes[i],
        )
    &&& nick.len() > 0 && !nick.contains('!')
    &&& !crate::wire::prefix_chars(f.prefix).contains(nick[0])
    &&& mask.len() == 0 || mask[0] == '!'
}

proof fn lemma_entry(
    f: FeaturesView,
    entry: Seq<char>,
    prefixes: Seq<char>,
    nick: Seq<char>,
    mask: Seq<char>,
)
    requires
        entry_of(f, entry, prefixes, nick, mask),
    ensures
        prefix_run(f.prefix, entry) == prefixes.len(),
        entry.take(prefix_run(f.prefix, entry) as int) == prefixes,
        crate::session::entry_nick(f, entry) == nick,
    decreases prefixes.len(),
{
    if prefixes.len() > 0 {
        assert(entry[0] == prefixes[0]);
        let less = prefixes.drop_first();
        assert(entry.drop_first() =~= less + nick + mask);
        assert forall|i: int| 0 <= i < less.len() implies crate::wire::prefix_chars(
            f.prefix,
        ).contains(#[trigger] less[i]) by {
            assert(less[i] == prefixes[i + 1]);
        }
        lemma_entry(f, entry.drop_first(), less, nick, mask);
    } else {
        assert(entry[0] == nick[0]);
    }
    let bare = entry.skip(prefixes.len() as int);
    assert(bare =~= nick + mask);
    assert forall|i: int| 0 <= i < nick.len() implies bare[i] != '!' by {
        assert(nick.contains(nick[i]));
    }
    lemma_first_at_is(bare, '!', nick.len());
    assert(bare.take(nick.len() as int) =~= nick);
    assert(entry.take(prefixes.len() as int) =~= prefixes);
}

/// The names that an entry list gives, each with what stands before and behind it.
pub open spec fn entries_of(
    f: FeaturesView,
    entries: Seq<Seq<char>>,
    prefixes: Seq<Seq<char>>,
    nicks: Seq<Seq<char>>,
    masks: Seq<Seq<char>>,
) -> bool {
    &&& entries.len() == prefixes.len() == nicks.len() == masks.len()
    &&& forall|i: int|
        0 <= i < entries.len() ==> entry_of(
            f,
            #[trigger] entries[i],
            prefixes[i],
            nicks[i],
            masks[i],
        )
}

/// True when a key is the nick of one of these from a place on.
pub open spec fn nick_from(f: FeaturesView, nicks: Seq<Seq<char>>, from: int, key: Seq<char>) -> bool {
    exists|j: int| from <= j < nicks.len() && 0 <= j && f.fold(#[trigger] nicks[j]) == key
}

/// Everyone on a member list is a member of the channel with the prefixes that the list gives them,
/// and known under the nick that it spells. Where it names someone twice, the last counts. Nobody
/// who is not on it is touched.
pub proof fn law_listed_are_members(
    m: ModelView,
    f: FeaturesView,
    latest_ms: u64,
    historical: bool,
    line: LineView,
    channel: Seq<char>,
    prefixes: Seq<Seq<char>>,
    nicks: Seq<Seq<char>>,
    masks: Seq<Seq<char>>,
    i: int,
    other: Seq<char>,
)
    requires
        upper(line.command) == "353"@,
        line.param(2) == Some(channel),
        m.channels.contains_key(f.fold(channel)),
        entries_of(f, words(line.trailing_or_empty()), prefixes, nicks, masks),
        0 <= i < nicks.len() && !nick_from(f, nicks, i + 1, f.fold(nicks[i])),
        !nick_from(f, nicks, 0, other),
    ensures
        ({
            let o = on_line(m, f, latest_ms, historical, line);
            let key = f.fold(channel);
            let was = m.channels[key];
            let now = o.model.channels[key];
            let who = f.fold(nicks[i]);
            &&& o.changes == seq![ChangeView::MembersChanged { channel }]
            &&& now.members.contains_key(who)
            &&& now.members[who].prefixes == prefixes[i]
            &&& o.model.people.contains_key(who)
            &&& o.model.people[who].nick == nicks[i]
            &&& m.people.contains_key(who) ==> o.model.people[who] == (PersonView {
                nick: nicks[i],
                ..m.people[who]
            })
            &&& now.members.contains_key(other) == was.members.contains_key(other)
            &&& was.members.contains_key(other) ==> now.members[other] == was.members[other]
            &&& o.model.people.contains_key(other) == m.people.contains_key(other)
            &&& m.people.contains_key(other) ==> o.model.people[other] == m.people[other]
            &&& now == (ChannelView { members: now.members, ..was })
            &&& same_channels_but(m, o.model, key)
            &&& o.model.conversations == m.conversations && o.model.me == m.me
        }),
{
    lemma_event_of(m, f, line);
    lemma_entries(
        m,
        f,
        f.fold(channel),
        words(line.trailing_or_empty()),
        prefixes,
        nicks,
        masks,
        i,
        other,
    );
}

proof fn lemma_entries(
    m: ModelView,
    f: FeaturesView,
    key: Seq<char>,
    entries: Seq<Seq<char>>,
    prefixes: Seq<Seq<char>>,
    nicks: Seq<Seq<char>>,
    masks: Seq<Seq<char>>,
    i: int,
    other: Seq<char>,
)
    requires
        m.channels.contains_key(key),
        entries_of(f, entries, prefixes, nicks, masks),
        !nick_from(f, nicks, 0, other),
    ensures
        ({
            let after = with_entries(m, f, key, entries);
            let was = m.channels[key];
            let now = after.channels[key];
            let who = f.fold(nicks[i]);
            &&& after.channels.contains_key(key)
            &&& 0 <= i < nicks.len() && !nick_from(f, nicks, i + 1, who) ==> {
                &&& now.members.contains_key(who)
                &&& now.members[who].prefixes == prefixes[i]
                &&& after.people.contains_key(who)
                &&& after.people[who].nick == nicks[i]
            }
            &&& 0 <= i < nicks.len() && m.people.contains_key(who) ==> after.people.contains_key(who)
                && after.people[who] == (PersonView {
                nick: after.people[who].nick,
                ..m.people[who]
            })
            &&& now.members.contains_key(other) == was.members.contains_key(other)
            &&& was.members.contains_key(other) ==> now.members[other] == was.members[other]
            &&& after.people.contains_key(other) == m.people.contains_key(other)
            &&& m.people.contains_key(other) ==> after.people[other] == m.people[other]
            &&& now == (ChannelView { members: now.members, ..was })
            &&& same_channels_but(m, after, key)
            &&& after.conversations == m.conversations && after.me == m.me
        }),
    decreases entries.len(),
{
    if entries.len() > 0 {
        let n = entries.len() - 1;
        let (e, p, k, s) = (
            entries.drop_last(),
            prefixes.drop_last(),
            nicks.drop_last(),
            masks.drop_last(),
        );
        assert forall|j: int| 0 <= j < e.len() implies entry_of(
            f,
            #[trigger] e[j],
            p[j],
            k[j],
            s[j],
        ) by {
            assert(entries[j] == e[j]);
        }
        if nick_from(f, k, 0, other) {
            let j = choose|j: int| 0 <= j < k.len() && 0 <= j && f.fold(#[trigger] k[j]) == other;
            assert(f.fold(nicks[j]) == other);
        }
        assert(entries[n] == entries.last());
        assert(f.fold(nicks[n]) != other);
        lemma_entry(f, entries[n], prefixes[n], nicks[n], masks[n]);
        lemma_entries(m, f, key, e, p, k, s, if i == n { 0 } else { i }, other);
        if 0 <= i < n && !nick_from(f, nicks, i + 1, f.fold(nicks[i])) {
            assert(k[i] == nicks[i] && p[i] == prefixes[i]);
            assert(f.fold(nicks[n]) != f.fold(nicks[i]));
            if nick_from(f, k, i + 1, f.fold(k[i])) {
                let j = choose|j: int|
                    i + 1 <= j < k.len() && 0 <= j && f.fold(#[trigger] k[j]) == f.fold(k[i]);
                assert(f.fold(nicks[j]) == f.fold(nicks[i]));
            }
        }
        if 0 <= i <= n && m.people.contains_key(f.fold(nicks[i])) {
            lemma_entries_keep_person(m, f, key, e, f.fold(nicks[i]));
        }
    }
}

proof fn lemma_entries_keep_person(
    m: ModelView,
    f: FeaturesView,
    key: Seq<char>,
    entries: Seq<Seq<char>>,
    who: Seq<char>,
)
    requires
        m.people.contains_key(who),
    ensures
        ({
            let after = with_entries(m, f, key, entries);
            after.people.contains_key(who) && after.people[who] == (PersonView {
                nick: after.people[who].nick,
                ..m.people[who]
            })
        }),
    decreases entries.len(),
{
    if entries.len() > 0 {
        lemma_entries_keep_person(m, f, key, entries.drop_last(), who);
    }
}

/// True when a line tells who someone is, in the plain form, which is silent about their account,
/// or in the long one that carries our token, which is not.
pub open spec fn tells_of(
    line: LineView,
    channel: Seq<char>,
    user: Seq<char>,
    host: Seq<char>,
    nick: Seq<char>,
    flags: Seq<char>,
) -> bool {
    let p = line.params;
    ||| {
        &&& upper(line.command) == "352"@
        &&& p.len() >= 7
        &&& p[1] == channel && p[2] == user && p[3] == host && p[5] == nick && p[6] == flags
    }
    ||| {
        &&& upper(line.command) == "354"@
        &&& p.len() >= 8
        &&& p[1] == "332"@ && p[2] == channel && p[3] == user && p[4] == host && p[5] == nick
        &&& p[6] == flags
    }
}

/// Whoever the server tells us of is known as it says: by nick, user and host, as an operator where
/// the flags have a `*`, as a bot where they have a `B`, and as away where they begin with `G`,
/// with the reason that we know. The long form settles their account, and the plain one leaves it.
/// In a channel that we are in they are a member with those of the flags that are prefixes. Nobody
/// else is touched.
pub proof fn law_told_who_they_are(
    m: ModelView,
    f: FeaturesView,
    latest_ms: u64,
    historical: bool,
    line: LineView,
    channel: Seq<char>,
    user: Seq<char>,
    host: Seq<char>,
    nick: Seq<char>,
    flags: Seq<char>,
    c: char,
)
    requires
        tells_of(line, channel, user, host, nick, flags),
    ensures
        ({
            let o = on_line(m, f, latest_ms, historical, line);
            let who = f.fold(nick);
            let now = o.model.people[who];
            let had = m.people.contains_key(who);
            let account = line.params[7];
            let away = flags.len() > 0 && flags[0] == 'G';
            let key = f.fold(channel);
            let here = f.is_channel(channel) && m.channels.contains_key(key);
            let long = upper(line.command) == "354"@;
            &&& o.model.people.contains_key(who)
            &&& now.nick == nick && now.username == Some(user) && now.host == Some(host)
            &&& now.operator == flags.contains('*')
            &&& now.bot == flags.contains('B')
            &&& now.away is Some == away
            &&& away && had && m.people[who].away is Some ==> now.away == m.people[who].away
            &&& long && (account == "0"@ || account == "*"@) ==> now.account is None
            &&& long && account != "0"@ && account != "*"@ ==> now.account == Some(account)
            &&& !long && had ==> now.account == m.people[who].account
            &&& !long && !had ==> now.account is None
            &&& long && line.params.len() > 8 ==> now.realname == Some(line.params[8])
            &&& long && line.params.len() == 8 && had ==> now.realname == m.people[who].realname
            &&& had ==> now.metadata == m.people[who].metadata
            &&& same_people_but(m, o.model, who)
            &&& here ==> {
                let was = m.channels[key];
                let room = o.model.channels[key];
                &&& o.changes == seq![ChangeView::MembersChanged { channel }]
                &&& same_channels_but(m, o.model, key)
                &&& room == (ChannelView { members: room.members, ..was })
                &&& room.members.contains_key(who)
                &&& room.members[who].prefixes.contains(c) <==> flags.contains(c)
                    && crate::wire::prefix_chars(f.prefix).contains(c)
                &&& same_members_but(was.members, room.members, who)
            }
            &&& !here ==> o.model.channels == m.channels && o.changes.len() == 0
            &&& o.model.conversations == m.conversations && o.model.me == m.me
        }),
{
    lemma_event_of(m, f, line);
    lemma_command_names();
    assert("352"@[2] == '2' && "354"@[2] == '4');
    let kept = flags.filter(is_prefix(f.prefix));
    let chars = crate::wire::prefix_chars(f.prefix);
    crate::text::lemma_first_at(chars, c);
    assert(crate::wire::prefix_rank(f.prefix, c) is Some <==> chars.contains(c)) by {
        if chars.contains(c) {
            assert(chars[chars.index_of(c)] == c);
        }
    }
    if kept.contains(c) {
        flags.lemma_filter_contains_rev(is_prefix(f.prefix), c);
        flags.lemma_filter_pred(is_prefix(f.prefix), kept.index_of(c));
    }
    if flags.contains(c) && chars.contains(c) {
        flags.lemma_filter_contains(is_prefix(f.prefix), flags.index_of(c));
    }
}

/// What a plain reply says of a real name stands behind the first space of its last parameter.
pub proof fn law_plain_reply_names_them(
    m: ModelView,
    f: FeaturesView,
    latest_ms: u64,
    historical: bool,
    line: LineView,
    hops: Seq<char>,
    realname: Seq<char>,
)
    requires
        upper(line.command) == "352"@,
        line.params.len() >= 7,
        !hops.contains(' '),
        line.params.last() == hops + seq![' '] + realname,
    ensures
        ({
            let o = on_line(m, f, latest_ms, historical, line);
            o.model.people[f.fold(line.params[5])].realname == Some(realname)
        }),
{
    lemma_event_of(m, f, line);
    let last = line.params.last();
    assert forall|i: int| 0 <= i < hops.len() implies last[i] != ' ' by {
        assert(hops.contains(hops[i]));
    }
    lemma_first_at_is(last, ' ', hops.len());
    assert(last.skip(hops.len() as int + 1) =~= realname);
}

/// The server's word on how far we have read is the marker of the channel, or else of the
/// conversation, that it speaks of. Nothing but the counts goes with it.
pub proof fn law_marker_is_the_servers_word(
    m: ModelView,
    f: FeaturesView,
    latest_ms: u64,
    historical: bool,
    line: LineView,
    target: Seq<char>,
    marker: Seq<char>,
)
    requires
        upper(line.command) == "MARKREAD"@,
        line.param(0) == Some(target),
        line.param(1) == Some("timestamp="@ + marker),
    ensures
        ({
            let o = on_line(m, f, latest_ms, historical, line);
            let key = f.fold(target);
            &&& m.channels.contains_key(key) ==> {
                let now = o.model.channels[key];
                &&& only_channel(m, o.model, key)
                &&& now.read_marker == Some(marker)
                &&& now.unread <= m.channels[key].unread
                &&& now.mentions <= m.channels[key].mentions
                &&& now == (ChannelView {
                    read_marker: now.read_marker,
                    unread: now.unread,
                    mentions: now.mentions,
                    ..m.channels[key]
                })
                &&& o.changes == seq![ChangeView::ReadMarker { target }]
            }
            &&& !m.channels.contains_key(key) && m.conversations.contains_key(key) ==> {
                let now = o.model.conversations[key];
                &&& now.read_marker == Some(marker)
                &&& now.unread <= m.conversations[key].unread
                &&& now == (ConversationView {
                    read_marker: now.read_marker,
                    unread: now.unread,
                    ..m.conversations[key]
                })
                &&& o.changes == seq![ChangeView::ReadMarker { target }]
                &&& o.model.channels == m.channels
            }
            &&& !m.channels.contains_key(key) && !m.conversations.contains_key(key) ==> o.model == m
                && o.changes.len() == 0
        }),
{
    lemma_event_of(m, f, line);
    let text = "timestamp="@ + marker;
    assert("timestamp="@.is_prefix_of(text)) by {
        assert(text.take("timestamp="@.len() as int) =~= "timestamp="@);
    }
    assert(text.skip("timestamp="@.len() as int) =~= marker);
    reveal(crate::session::left_unread);
    reveal(crate::session::left_mentions);
}

/// True when one of the changes from a place on sets or clears this mode of the channel.
pub open spec fn letter_from(changes: Seq<ModeChangeView>, from: int, letter: char) -> bool {
    exists|j: int|
        from <= j < changes.len() && 0 <= j && !(#[trigger] changes[j]).membership && changes[j].mode
            == letter
}

/// True when a change gives someone a prefix, or takes it away.
pub open spec fn concerns_member(
    f: FeaturesView,
    change: ModeChangeView,
    who: Seq<char>,
    prefix: char,
) -> bool {
    &&& change.membership
    &&& change.arg is Some && f.fold(change.arg->0) == who
    &&& prefix_granted(f.prefix, change.mode) == Some(prefix)
}

/// True when one of the changes from a place on gives someone a prefix, or takes it away.
pub open spec fn member_from(
    f: FeaturesView,
    changes: Seq<ModeChangeView>,
    from: int,
    who: Seq<char>,
    prefix: char,
) -> bool {
    exists|j: int|
        from <= j < changes.len() && 0 <= j && concerns_member(
            f,
            #[trigger] changes[j],
            who,
            prefix,
        )
}

proof fn lemma_ranked_holds(order: Seq<(char, char)>, s: Seq<char>, c: char)
    ensures
        crate::model::ranked(order, s).contains(c) == s.contains(c),
    decreases s.len(),
{
    if s.len() > 0 {
        let rest = s.drop_last();
        lemma_ranked_holds(order, rest, c);
        lemma_placed_holds(order, crate::model::ranked(order, rest), s.last(), c);
        assert(s[s.len() - 1] == s.last());
        if rest.contains(c) {
            assert(s[rest.index_of(c)] == c);
        }
        if s.contains(c) && c != s.last() {
            assert(rest[s.index_of(c)] == c);
        }
    }
}

proof fn lemma_placed_holds(order: Seq<(char, char)>, s: Seq<char>, put: char, c: char)
    ensures
        crate::model::placed(order, s, put).contains(c) == (s.contains(c) || c == put),
    decreases s.len(),
{
    let p = crate::model::placed(order, s, put);
    if s.len() == 0 {
        assert(p[0] == put);
    } else if crate::model::ranks_below(order, s[0], put) {
        assert(p[0] == put);
        if s.contains(c) {
            assert(p[s.index_of(c) + 1] == c);
        }
        if p.contains(c) && c != put {
            assert(s[p.index_of(c) - 1] == c);
        }
    } else {
        let rest = s.drop_first();
        lemma_placed_holds(order, rest, put, c);
        let q = crate::model::placed(order, rest, put);
        assert(p =~= seq![s[0]] + q);
        assert(p[0] == s[0]);
        if q.contains(c) {
            assert(p[q.index_of(c) + 1] == c);
        }
        if p.contains(c) && c != s[0] {
            assert(q[p.index_of(c) - 1] == c);
        }
        if s.contains(c) && c != s[0] {
            assert(rest[s.index_of(c) - 1] == c);
        }
        if rest.contains(c) {
            assert(s[rest.index_of(c) + 1] == c);
        }
    }
}

proof fn lemma_granted_holds(order: Seq<(char, char)>, had: Seq<char>, put: char, c: char)
    ensures
        granted(order, had, put).contains(c) == (had.contains(c) || c == put),
        crate::model::revoked(had, put).contains(c) == (had.contains(c) && c != put),
{
    lemma_ranked_holds(order, had.push(put), c);
    assert(had.push(put)[had.len() as int] == put);
    if had.contains(c) {
        assert(had.push(put)[had.index_of(c)] == c);
        if c != put {
            had.lemma_filter_contains(crate::model::other_than(put), had.index_of(c));
        }
    }
    if had.push(put).contains(c) && c != put {
        assert(had[had.push(put).index_of(c)] == c);
    }
    let left = crate::model::revoked(had, put);
    if left.contains(c) {
        had.lemma_filter_contains_rev(crate::model::other_than(put), c);
        had.lemma_filter_pred(crate::model::other_than(put), left.index_of(c));
    }
}

/// A mode change is carried out letter by letter, and of the changes to one letter, or to one
/// prefix of one member, the last decides: a mode that is set is there with its argument, one that
/// is taken back is not, a prefix that is granted is held and one that is revoked is not. What no
/// change speaks of stays, and nobody becomes a member or stops being one.
pub proof fn law_last_mode_change_decides(
    m: ModelView,
    f: FeaturesView,
    latest_ms: u64,
    historical: bool,
    line: LineView,
    target: Seq<char>,
    letter: char,
    who: Seq<char>,
    prefix: char,
    i: int,
)
    requires
        upper(line.command) == "MODE"@,
        line.param(0) == Some(target),
        f.is_channel(target),
        m.channels.contains_key(f.fold(target)),
    ensures
        ({
            let o = on_line(m, f, latest_ms, historical, line);
            let key = f.fold(target);
            let was = m.channels[key];
            let now = o.model.channels[key];
            let changes = crate::isupport::channel_modes(
                f.tokens,
                crate::wire::prefix_modes(f.prefix),
                line.params.skip(1),
            );
            let change = changes[i];
            &&& only_channel(m, o.model, key)
            &&& now == (ChannelView { members: now.members, modes: now.modes, ..was })
            &&& now.members.dom() == was.members.dom()
            &&& 0 <= i < changes.len() && !change.membership && change.mode == letter
                && !letter_from(changes, i + 1, letter) ==> {
                &&& now.modes.contains_key(letter) == change.set
                &&& change.set ==> now.modes[letter] == change.arg
            }
            &&& !letter_from(changes, 0, letter) ==> {
                &&& now.modes.contains_key(letter) == was.modes.contains_key(letter)
                &&& was.modes.contains_key(letter) ==> now.modes[letter] == was.modes[letter]
            }
            &&& was.members.contains_key(who) && 0 <= i < changes.len() && concerns_member(
                f,
                change,
                who,
                prefix,
            ) && !member_from(f, changes, i + 1, who, prefix)
                ==> now.members[who].prefixes.contains(prefix) == change.set
            &&& was.members.contains_key(who) && !member_from(f, changes, 0, who, prefix)
                ==> now.members[who].prefixes.contains(prefix)
                == was.members[who].prefixes.contains(prefix)
            &&& o.changes.len() >= 1 && o.changes[0] == (ChangeView::ModesChanged {
                channel: target,
            })
            &&& now.members != was.members ==> o.changes.contains(
                ChangeView::MembersChanged { channel: target },
            )
        }),
{
    lemma_event_of(m, f, line);
    let changes = f.channel_modes(line.params.skip(1));
    lemma_mode_changes(m, f, f.fold(target), changes, letter, who, prefix, i);
    let s = with_modes(m, f, f.fold(target), changes);
    let o = on_line(m, f, latest_ms, historical, line);
    if s.touched {
        assert(o.changes[1] == (ChangeView::MembersChanged { channel: target }));
    }
}

#[verifier::rlimit(40)]
#[verifier::spinoff_prover]
proof fn lemma_mode_changes(
    m: ModelView,
    f: FeaturesView,
    key: Seq<char>,
    changes: Seq<ModeChangeView>,
    letter: char,
    who: Seq<char>,
    prefix: char,
    i: int,
)
    requires
        m.channels.contains_key(key),
    ensures
        ({
            let s = with_modes(m, f, key, changes);
            let was = m.channels[key];
            let now = s.model.channels[key];
            let change = changes[i];
            &&& only_channel(m, s.model, key)
            &&& now == (ChannelView { members: now.members, modes: now.modes, ..was })
            &&& now.members.dom() == was.members.dom()
            &&& !s.touched ==> now.members == was.members
            &&& 0 <= i < changes.len() && !change.membership && change.mode == letter
                && !letter_from(changes, i + 1, letter) ==> {
                &&& now.modes.contains_key(letter) == change.set
                &&& change.set ==> now.modes[letter] == change.arg
            }
            &&& !letter_from(changes, 0, letter) ==> {
                &&& now.modes.contains_key(letter) == was.modes.contains_key(letter)
                &&& was.modes.contains_key(letter) ==> now.modes[letter] == was.modes[letter]
            }
            &&& was.members.contains_key(who) && 0 <= i < changes.len() && concerns_member(
                f,
                change,
                who,
                prefix,
            ) && !member_from(f, changes, i + 1, who, prefix)
                ==> now.members[who].prefixes.contains(prefix) == change.set
            &&& was.members.contains_key(who) && !member_from(f, changes, 0, who, prefix)
                ==> now.members[who].prefixes.contains(prefix)
                == was.members[who].prefixes.contains(prefix)
        }),
    decreases changes.len(),
{
    if changes.len() > 0 {
        let n = changes.len() - 1;
        let rest = changes.drop_last();
        let last = changes.last();
        assert(changes[n] == last);
        lemma_mode_changes(m, f, key, rest, letter, who, prefix, if i == n { 0 } else { i });
        let before = with_modes(m, f, key, rest);
        let after = with_modes(m, f, key, changes);
        assert(after == with_mode(before, f, key, last));
        let c = before.model.channels[key];
        assert(after.model.channels[key].members.dom() =~= c.members.dom());
        if last.membership && last.arg is Some && prefix_granted(f.prefix, last.mode) is Some {
            let to = f.fold(last.arg->0);
            lemma_granted_holds(
                f.prefix,
                c.members[to].prefixes,
                prefix_granted(f.prefix, last.mode)->0,
                prefix,
            );
        }
        if !letter_from(changes, 0, letter) && letter_from(rest, 0, letter) {
            let j = choose|j: int|
                0 <= j < rest.len() && 0 <= j && !(#[trigger] rest[j]).membership && rest[j].mode
                    == letter;
            assert(changes[j].mode == letter && !changes[j].membership);
        }
        if !member_from(f, changes, 0, who, prefix) && member_from(f, rest, 0, who, prefix) {
            let j = choose|j: int|
                0 <= j < rest.len() && 0 <= j && concerns_member(
                    f,
                    #[trigger] rest[j],
                    who,
                    prefix,
                );
            assert(concerns_member(f, changes[j], who, prefix));
        }
        if 0 <= i < n {
            assert(rest[i] == changes[i]);
            if !letter_from(changes, i + 1, letter) && letter_from(rest, i + 1, letter) {
                let j = choose|j: int|
                    i + 1 <= j < rest.len() && 0 <= j && !(#[trigger] rest[j]).membership
                        && rest[j].mode == letter;
                assert(changes[j].mode == letter && !changes[j].membership);
            }
            if !member_from(f, changes, i + 1, who, prefix) && member_from(
                f,
                rest,
                i + 1,
                who,
                prefix,
            ) {
                let j = choose|j: int|
                    i + 1 <= j < rest.len() && 0 <= j && concerns_member(
                        f,
                        #[trigger] rest[j],
                        who,
                        prefix,
                    );
                assert(concerns_member(f, changes[j], who, prefix));
            }
        }
        if !letter_from(changes, 0, letter) {
            assert(last.membership || last.mode != letter);
        }
        if !member_from(f, changes, 0, who, prefix) {
            assert(!concerns_member(f, last, who, prefix));
        }
        if i < n && !letter_from(changes, i + 1, letter) && 0 <= i {
            assert(last.membership || last.mode != letter);
        }
        if i < n && !member_from(f, changes, i + 1, who, prefix) && 0 <= i {
            assert(!concerns_member(f, last, who, prefix));
        }
    }
}

/// Whether the letter at a place of a mode string is set: the sign that stands last before it says,
/// and without one it is as it was at the start.
pub open spec fn sign_at(text: Seq<char>, set: bool, i: int) -> bool
    decreases i,
{
    if i <= 0 {
        set
    } else if text[i - 1] == '+' {
        true
    } else if text[i - 1] == '-' {
        false
    } else {
        sign_at(text, set, i - 1)
    }
}

/// Our own modes are those that the server set and has not taken back: of the places where a letter
/// stands in the mode string the last decides, by the sign before it, and a letter that does not
/// stand there stays as it was.
pub proof fn law_our_modes(
    m: ModelView,
    f: FeaturesView,
    latest_ms: u64,
    historical: bool,
    line: LineView,
    target: Seq<char>,
    text: Seq<char>,
    letter: char,
    i: int,
)
    requires
        upper(line.command) == "MODE"@,
        line.params.len() >= 2,
        line.params[0] == target && line.params[1] == text,
        !f.is_channel(target),
        letter != '+' && letter != '-',
    ensures
        ({
            let o = on_line(m, f, latest_ms, historical, line);
            let now = o.model.me.modes;
            &&& 0 <= i < text.len() && text[i] == letter && (forall|j: int|
                i < j < text.len() ==> text[j] != letter) ==> now.contains(letter) == sign_at(
                text,
                true,
                i,
            )
            &&& !text.contains(letter) ==> now.contains(letter) == m.me.modes.contains(letter)
            &&& o.model == (ModelView { me: MeView { modes: now, ..m.me }, ..m })
        }),
{
    lemma_event_of(m, f, line);
    lemma_our_modes(m.me.modes, text, true, letter, i);
}

proof fn lemma_with_user_modes_of_both(
    modes: Seq<char>,
    a: Seq<ModeChangeView>,
    b: Seq<ModeChangeView>,
)
    ensures
        with_user_modes(modes, a + b) == with_user_modes(with_user_modes(modes, a), b),
    decreases b.len(),
{
    if b.len() == 0 {
        assert(a + b =~= a);
    } else {
        assert((a + b).drop_last() =~= a + b.drop_last());
        assert((a + b).last() == b.last());
        lemma_with_user_modes_of_both(modes, a, b.drop_last());
    }
}

proof fn lemma_sign(text: Seq<char>, set: bool, i: int)
    requires
        0 < i <= text.len(),
    ensures
        sign_at(text, set, i) == sign_at(
            text.drop_first(),
            if text[0] == '+' {
                true
            } else if text[0] == '-' {
                false
            } else {
                set
            },
            i - 1,
        ),
    decreases i,
{
    reveal_with_fuel(sign_at, 3);
    if i > 1 {
        assert(text.drop_first()[i - 2] == text[i - 1]);
        lemma_sign(text, set, i - 1);
    }
}

proof fn lemma_our_modes(modes: Seq<char>, text: Seq<char>, set: bool, letter: char, i: int)
    requires
        letter != '+' && letter != '-',
    ensures
        ({
            let now = with_user_modes(modes, user_modes(text, set));
            &&& 0 <= i < text.len() && text[i] == letter && (forall|j: int|
                i < j < text.len() ==> text[j] != letter) ==> now.contains(letter) == sign_at(
                text,
                set,
                i,
            )
            &&& !text.contains(letter) ==> now.contains(letter) == modes.contains(letter)
        }),
    decreases text.len(),
{
    if text.len() > 0 {
        let rest = text.drop_first();
        let first = text[0];
        let next = if first == '+' {
            true
        } else if first == '-' {
            false
        } else {
            set
        };
        let change = crate::isupport::flag_change(set, first);
        let begun = if first == '+' || first == '-' {
            modes
        } else {
            crate::session::with_user_mode(modes, change)
        };
        if first != '+' && first != '-' {
            lemma_with_user_modes_of_both(modes, seq![change], user_modes(rest, set));
            assert(seq![change].drop_last() =~= Seq::<ModeChangeView>::empty());
            reveal_with_fuel(with_user_modes, 2);
            assert(with_user_modes(modes, seq![change]) == begun);
            lemma_granted_holds(Seq::empty(), modes, first, letter);
            assert(modes.push(first)[modes.len() as int] == first);
            if modes.contains(letter) {
                assert(modes.push(first)[modes.index_of(letter)] == letter);
            }
            if modes.push(first).contains(letter) && letter != first {
                assert(modes[modes.push(first).index_of(letter)] == letter);
            }
        }
        lemma_our_modes(begun, rest, next, letter, i - 1);
        if rest.contains(letter) {
            assert(text[rest.index_of(letter) + 1] == letter);
        }
        if 0 < i < text.len() && text[i] == letter && (forall|j: int|
            i < j < text.len() ==> text[j] != letter) {
            lemma_sign(text, set, i);
            assert(rest[i - 1] == letter);
            assert forall|j: int| i - 1 < j < rest.len() implies rest[j] != letter by {
                assert(rest[j] == text[j + 1]);
            }
        }
        if i == 0 && first == letter && (forall|j: int|
            0 < j < text.len() ==> text[j] != letter) {
            if rest.contains(letter) {
                assert(text[rest.index_of(letter) + 1] == letter);
            }
        }
        if !text.contains(letter) {
            assert(text[0] != letter);
        }
    }
}

/// True when an entry sets a named mode, to a parameter or without one.
pub open spec fn names_set(entry: Seq<char>, name: Seq<char>, param: Option<Seq<char>>) -> bool {
    &&& !name.contains('=')
    &&& match param {
        Some(value) => entry == seq!['+'] + name + seq!['='] + value,
        None => entry == seq!['+'] + name,
    }
}

/// True when an entry takes a named mode back, whether it repeats the parameter or not.
pub open spec fn names_cleared(entry: Seq<char>, name: Seq<char>, rest: Seq<char>) -> bool {
    &&& !name.contains('=')
    &&& rest.len() == 0 || rest[0] == '='
    &&& entry == seq!['-'] + name + rest
}

proof fn lemma_named_entry(
    modes: Map<Seq<char>, Option<Seq<char>>>,
    entry: Seq<char>,
    name: Seq<char>,
    param: Option<Seq<char>>,
    rest: Seq<char>,
)
    ensures
        names_set(entry, name, param) ==> crate::session::with_named(modes, entry) == modes.insert(
            name,
            param,
        ),
        names_cleared(entry, name, rest) ==> crate::session::with_named(modes, entry)
            == modes.remove(name),
{
    let inner = entry.skip(1);
    if names_set(entry, name, param) || names_cleared(entry, name, rest) {
        assert forall|i: int| 0 <= i < name.len() implies inner[i] != '=' by {
            assert(name.contains(name[i]));
            assert(inner[i] == name[i]);
        }
        lemma_first_at_is(inner, '=', name.len());
        assert(inner.take(name.len() as int) =~= name);
    }
    if names_set(entry, name, param) {
        match param {
            Some(value) => {
                assert(inner =~= name + seq!['='] + value);
                assert(inner.skip(name.len() as int + 1) =~= value);
            },
            None => {
                assert(inner =~= name);
            },
        }
    }
}

/// A mode that is set by its name is there with its parameter, and one that is taken back is not,
/// whether the server tells of the change or lists what is set. It is the channel that the server
/// speaks of that has it, and every other mode and channel stays.
pub proof fn law_named_modes_are_held(
    m: ModelView,
    f: FeaturesView,
    latest_ms: u64,
    historical: bool,
    line: LineView,
    target: Seq<char>,
    entry: Seq<char>,
    name: Seq<char>,
    param: Option<Seq<char>>,
    rest: Seq<char>,
    other: Seq<char>,
)
    requires
        upper(line.command) == "PROP"@,
        line.params == seq![target, entry],
        names_set(entry, name, param) || names_cleared(entry, name, rest),
        m.channels.contains_key(f.fold(target)),
        other != name,
    ensures
        ({
            let o = on_line(m, f, latest_ms, historical, line);
            let key = f.fold(target);
            let was = m.channels[key];
            let now = o.model.channels[key];
            &&& only_channel(m, o.model, key)
            &&& o.changes == seq![ChangeView::ModesChanged { channel: target }]
            &&& now == (ChannelView { named_modes: now.named_modes, ..was })
            &&& names_set(entry, name, param) ==> now.named_modes.contains_key(name)
                && now.named_modes[name] == param
            &&& names_cleared(entry, name, rest) ==> !now.named_modes.contains_key(name)
            &&& now.named_modes.contains_key(other) == was.named_modes.contains_key(other)
            &&& was.named_modes.contains_key(other) ==> now.named_modes[other]
                == was.named_modes[other]
        }),
{
    lemma_event_of(m, f, line);
    let was = m.channels[f.fold(target)];
    lemma_named_entry(was.named_modes, entry, name, param, rest);
    assert(line.params.skip(1) =~= seq![entry]);
    assert(seq![entry].drop_last() =~= Seq::<Seq<char>>::empty());
    reveal_with_fuel(with_all_named, 2);
}

/// Changes of named modes in one line are as the same changes in several, one after the other.
pub proof fn law_named_changes_add_up(
    m: ModelView,
    f: FeaturesView,
    latest_ms: u64,
    historical: bool,
    line: LineView,
    first: LineView,
    second: LineView,
    target: Seq<char>,
    a: Seq<Seq<char>>,
    b: Seq<Seq<char>>,
)
    requires
        upper(line.command) == "PROP"@,
        line.params == seq![target] + a + b,
        first == (LineView { params: seq![target] + a, ..line }),
        second == (LineView { params: seq![target] + b, ..line }),
        m.channels.contains_key(f.fold(target)),
    ensures
        on_line(m, f, latest_ms, historical, line).model == on_line(
            on_line(m, f, latest_ms, historical, first).model,
            f,
            latest_ms,
            historical,
            second,
        ).model,
{
    let half = on_line(m, f, latest_ms, historical, first).model;
    lemma_event_of(m, f, line);
    lemma_event_of(m, f, first);
    lemma_event_of(half, f, second);
    assert(line.params.skip(1) =~= a + b);
    assert(first.params.skip(1) =~= a);
    assert(second.params.skip(1) =~= b);
    let key = f.fold(target);
    lemma_named_of_both(m.channels[key].named_modes, a, b);
    let whole = on_line(m, f, latest_ms, historical, line).model;
    let twice = on_line(half, f, latest_ms, historical, second).model;
    assert(whole.channels =~= twice.channels);
}

proof fn lemma_named_of_both(
    modes: Map<Seq<char>, Option<Seq<char>>>,
    a: Seq<Seq<char>>,
    b: Seq<Seq<char>>,
)
    ensures
        with_all_named(modes, a + b) == with_all_named(with_all_named(modes, a), b),
    decreases b.len(),
{
    if b.len() == 0 {
        assert(a + b =~= a);
    } else {
        assert((a + b).drop_last() =~= a + b.drop_last());
        assert((a + b).last() == b.last());
        lemma_named_of_both(modes, a, b.drop_last());
    }
}

/// A listing of what is set is as a change that sets each of its words.
pub proof fn law_listed_modes_are_set(
    m: ModelView,
    f: FeaturesView,
    latest_ms: u64,
    historical: bool,
    list: LineView,
    change: LineView,
    us: Seq<char>,
    target: Seq<char>,
    text: Seq<char>,
)
    requires
        upper(list.command) == "961"@,
        list.params == seq![us, target, text],
        upper(change.command) == "PROP"@,
        change.params.len() == 1 + words(text).len(),
        change.params[0] == target,
        forall|i: int|
            0 <= i < words(text).len() ==> #[trigger] change.params[i + 1] == seq!['+'] + words(
                text,
            )[i],
    ensures
        on_line(m, f, latest_ms, historical, list).model == on_line(
            m,
            f,
            latest_ms,
            historical,
            change,
        ).model,
{
    lemma_event_of(m, f, list);
    lemma_event_of(m, f, change);
    assert(list.params.skip(2) =~= seq![text]);
    assert(seq![text].drop_last() =~= Seq::<Seq<char>>::empty());
    reveal_with_fuel(all_words, 2);
    assert(all_words(seq![text]) =~= words(text));
    let set = all_set(words(text));
    let told = change.params.skip(1);
    assert forall|i: int| 0 <= i < set.len() implies set[i] == told[i] by {
        assert(change.params[i + 1] == seq!['+'] + words(text)[i]);
    }
    assert(set =~= told);
}

} // verus!

//! What a connection knows, and what everything that happens does to it.

use vstd::prelude::*;
use vstd::utf8::encode_utf8;

use crate::batch::{BatchView, BatchesView, DEFAULT_MAX_BUFFERED};
use crate::caps::{granted, CapsView};
use crate::command::CommandView;
use crate::config::{ConfigView, Phase};
use crate::crypto::lossy;
use crate::event::{EventView, Severity};
use crate::extensions::{all_words, allowed_after};
use crate::isupport::{token_read, FeaturesView};
use crate::label::{
    in_time, label_of, lemma_none_overdue, overdue, without_batches, LabelsView, PendingView, DEFAULT_TIMEOUT_MS,
};
use crate::model::{kept_at_least_one, ChannelView, ConversationView, MeView, ModelView};
use crate::monitor::{requests, targets_in, MonitorView};
use crate::room::RoomView;
use crate::sasl::{challenge, offered, response_lines, CredentialsView, SaslFailure, SaslState};
use crate::scram::ScramView;
use crate::session::{on_line, ChangeView};
use crate::sorted::{in_order, lemma_has_order};
use crate::text::{before_first, decimal, lower, upper, words};
use crate::timer::{
    expired, law_fires_on_time, lemma_expired_once, lemma_none_due, still_armed, BackoffView,
    DeadlineView, Now, DEAD_LINK_MS, DEFAULT_BASE_MS, DEFAULT_CAP_MS, DEFAULT_MAX_ATTEMPTS,
    PING_KEEPALIVE_MS, TYPING_EXPIRY_MS,
};
use crate::voice::decoded;
use crate::wire::{parsed, rendered, LineView, SourceView};

verus! {

/// The most that is buffered while assembling one inbound line.
///
/// A stream that never sends a newline would otherwise grow the buffer without end. This is the
/// largest line that a server may legally send: 8191 bytes of tags, and 512 of the rest.
pub const MAX_INBOUND_LINE: usize = 8703;

/// How many targets a `MONITOR` request names where the server does not say.
pub const DEFAULT_MONITOR_LIMIT: u32 = 100;

/// Everything that one connection holds.
#[verifier::ext_equal]
pub struct ClientView {
    pub config: ConfigView,
    pub phase: Phase,
    pub caps: CapsView,
    pub nick: Seq<char>,
    pub isupport: FeaturesView,
    pub model: ModelView,
    pub batches: BatchesView,
    pub monitor: MonitorView,
    /// Channel keys, so that a rejoin is not refused for want of one.
    pub channel_keys: Map<Seq<char>, Seq<char>>,
    /// Metadata keys that we subscribed to, so that a reconnect can ask again.
    pub metadata_subscriptions: Seq<Seq<char>>,
    pub rooms: Map<Seq<char>, RoomView>,
    pub commands: Set<Seq<char>>,
    pub timers: Map<DeadlineView, u64>,
    pub labels: LabelsView<Seq<char>>,
    pub backoff: BackoffView,
    pub monotonic_ms: u64,
    /// The latest instant seen, which stamps a line that the server did not stamp itself.
    pub latest_ms: u64,
    /// True while the remainder of a line that grew too long is skipped.
    pub discarding: bool,
    pub dropped_lines: u64,
    pub sasl: SaslState,
    pub scram: Option<ScramView>,
    pub nick_attempt: usize,
    /// Bytes read from the transport that do not yet form a whole line.
    pub partial: Seq<u8>,
    /// Lines that wait to be written.
    pub outbox: Seq<Seq<u8>>,
    /// What waits to be told.
    pub events: Seq<EventView>,
}

/// An instant this much later, or the last there is.
pub open spec fn later(at: u64, by: u64) -> u64 {
    if at + by > u64::MAX {
        u64::MAX
    } else {
        (at + by) as u64
    }
}

/// One more, or as many as can be counted.
pub open spec fn one_more(n: u64) -> u64 {
    later(n, 1)
}

/// A line as it is written.
pub open spec fn written(line: LineView) -> Seq<u8> {
    encode_utf8(rendered(line)) + seq![13u8, 10u8]
}

/// The lines that open a connection. `CAP LS` goes first so that the server holds registration
/// open while we negotiate, and `PASS` has to precede the rest.
pub open spec fn registration(config: ConfigView) -> Seq<LineView> {
    let pass = match config.password {
        Some(password) => seq![LineView::plain("PASS"@, seq![password])],
        None => Seq::empty(),
    };
    seq![LineView::plain("CAP"@, seq!["LS"@, "302"@])] + pass + seq![
        LineView::plain("NICK"@, seq![config.nick]),
        LineView::plain("USER"@, seq![config.username, "0"@, "*"@, config.realname]),
    ]
}

/// A line about a message: a reaction to it, or the end of one.
pub open spec fn reaction_line(
    tag: Seq<char>,
    target: Seq<char>,
    msgid: Seq<char>,
    emoji: Seq<char>,
) -> LineView {
    LineView::plain("TAGMSG"@, seq![target]).with_tag(tag, emoji).with_tag("+draft/reply"@, msgid)
}

/// A command with a parameter that may be missing behind these.
pub open spec fn with_optional(
    command: Seq<char>,
    params: Seq<Seq<char>>,
    last: Option<Seq<char>>,
) -> LineView {
    match last {
        Some(last) => LineView::plain(command, params.push(last)),
        None => LineView::plain(command, params),
    }
}

/// The line that carries a command, where it is no more than that. Nothing for one that needs the
/// state of the connection, nor for a raw line that does not parse.
pub open spec fn wire_of(command: CommandView) -> Option<LineView> {
    match command {
        CommandView::Part { channel, reason } => Some(
            with_optional("PART"@, seq![channel], reason),
        ),
        CommandView::SetNick { nick } => Some(LineView::plain("NICK"@, seq![nick])),
        CommandView::SetTopic { channel, topic } => Some(
            LineView::plain(
                "TOPIC"@,
                seq![
                    channel,
                    match topic {
                        Some(topic) => topic,
                        None => Seq::empty(),
                    },
                ],
            ),
        ),
        CommandView::SetAway { message } => Some(with_optional("AWAY"@, Seq::empty(), message)),
        CommandView::SetTyping { target, state } => Some(
            LineView::plain("TAGMSG"@, seq![target]).with_tag("+typing"@, state.spelling()),
        ),
        CommandView::AddReaction { target, msgid, emoji } => Some(
            reaction_line("+draft/react"@, target, msgid, emoji),
        ),
        CommandView::RemoveReaction { target, msgid, emoji } => Some(
            reaction_line("+draft/unreact"@, target, msgid, emoji),
        ),
        CommandView::RedactMessage { target, msgid, reason } => Some(
            with_optional("REDACT"@, seq![target, msgid], reason),
        ),
        CommandView::MarkRead { target, timestamp } => Some(
            LineView::plain("MARKREAD"@, seq![target, "timestamp="@ + timestamp]),
        ),
        CommandView::FetchHistory { target, before, limit } => Some(
            match before {
                Some(msgid) => LineView::plain(
                    "CHATHISTORY"@,
                    seq!["BEFORE"@, target, "msgid="@ + msgid, decimal(limit as nat)],
                ),
                None => LineView::plain(
                    "CHATHISTORY"@,
                    seq!["LATEST"@, target, "*"@, decimal(limit as nat)],
                ),
            },
        ),
        CommandView::SetMetadata { key, value } => Some(
            with_optional("METADATA"@, seq!["*"@, "SET"@, key], value),
        ),
        CommandView::SendVoiceSignal { channel, signal_json } => Some(
            LineView::plain("TAGMSG"@, seq![channel]).with_tag("+obsidianirc/rtc"@, signal_json),
        ),
        CommandView::Quit { reason } => Some(with_optional("QUIT"@, Seq::empty(), reason)),
        CommandView::SendRawLine { line } => parsed(line),
        _ => None,
    }
}

/// These texts and, behind them, those of the others that are not among them yet.
pub open spec fn with_new(had: Seq<Seq<char>>, more: Seq<Seq<char>>) -> Seq<Seq<char>>
    decreases more.len(),
{
    if more.len() == 0 {
        had
    } else {
        let rest = with_new(had, more.drop_last());
        if rest.contains(more.last()) {
            rest
        } else {
            rest.push(more.last())
        }
    }
}

/// The line that asks who is in a channel, in the richest form that the server supports. WHOX
/// carries the account, which tells that two nicks are the same person.
pub open spec fn who_line(f: FeaturesView, channel: Seq<char>) -> LineView {
    if f.tokens.contains_key("WHOX"@) {
        LineView::plain("WHO"@, seq![channel, "%tcuhnfar,332"@])
    } else {
        LineView::plain("WHO"@, seq![channel])
    }
}

/// The lines that ask who is in the channels that we joined. NAMES gives nicks and prefixes and
/// nothing else, so joining is when we ask who these people are.
pub open spec fn who_lines(f: FeaturesView, changes: Seq<ChangeView>) -> Seq<LineView>
    decreases changes.len(),
{
    if changes.len() == 0 {
        Seq::empty()
    } else {
        let rest = who_lines(f, changes.drop_last());
        match changes.last() {
            ChangeView::Joined { channel } => rest.push(who_line(f, channel)),
            _ => rest,
        }
    }
}

/// A change as an event.
pub open spec fn changed() -> spec_fn(ChangeView) -> EventView {
    |change: ChangeView| EventView::Changed { change }
}

/// A capability as a request.
pub open spec fn cap_request() -> spec_fn(Seq<char>) -> LineView {
    |name: Seq<char>| LineView::plain("CAP"@, seq!["REQ"@, name])
}

/// A payload as a line of authentication.
pub open spec fn authenticate() -> spec_fn(Seq<char>) -> LineView {
    |payload: Seq<char>| LineView::plain("AUTHENTICATE"@, seq![payload])
}

/// A list of targets as a `MONITOR` request.
pub open spec fn monitor_request(verb: Seq<char>) -> spec_fn(Seq<char>) -> LineView {
    |targets: Seq<char>| LineView::plain("MONITOR"@, seq![verb, targets])
}

/// A line as it is written.
pub open spec fn as_written() -> spec_fn(LineView) -> Seq<u8> {
    |line: LineView| written(line)
}

/// A command that was never answered, as an event.
pub open spec fn timed_out() -> spec_fn((Seq<char>, PendingView<Seq<char>>)) -> EventView {
    |e: (Seq<char>, PendingView<Seq<char>>)| EventView::CommandTimedOut { command: e.1.data }
}

/// How serious a line of `standard-replies` is.
pub open spec fn severity_named(command: Seq<char>) -> Option<Severity> {
    if upper(command) == "FAIL"@ {
        Some(Severity::Fail)
    } else if upper(command) == "WARN"@ {
        Some(Severity::Warn)
    } else if upper(command) == "NOTE"@ {
        Some(Severity::Note)
    } else {
        None
    }
}

/// Why authentication failed, by the numeric that says so.
pub open spec fn failure_named(command: Seq<char>) -> Option<SaslFailure> {
    if command == "904"@ {
        Some(SaslFailure::Rejected)
    } else if command == "905"@ {
        Some(SaslFailure::TooLong)
    } else if command == "906"@ {
        Some(SaslFailure::Aborted)
    } else if command == "907"@ {
        Some(SaslFailure::AlreadyAuthenticated)
    } else {
        None
    }
}

/// Where the first line of these bytes ends, or how many there are where none does.
pub open spec fn line_end(bytes: Seq<u8>) -> nat
    decreases bytes.len(),
{
    if bytes.len() == 0 || bytes[0] == 10 {
        0
    } else {
        1 + line_end(bytes.skip(1))
    }
}

/// A line ends within the bytes that it is looked for in.
pub proof fn lemma_line_end(bytes: Seq<u8>)
    ensures
        line_end(bytes) <= bytes.len(),
        line_end(bytes) < bytes.len() ==> bytes[line_end(bytes) as int] == 10,
        forall|i: int| 0 <= i < line_end(bytes) ==> #[trigger] bytes[i] != 10,
    decreases bytes.len(),
{
    if bytes.len() > 0 && bytes[0] != 10 {
        lemma_line_end(bytes.skip(1));
        assert forall|i: int| 0 <= i < line_end(bytes) implies #[trigger] bytes[i] != 10 by {
            if i > 0 {
                assert(bytes.skip(1)[i - 1] == bytes[i]);
            }
        }
    }
}

impl ClientView {
    /// Before it has connected.
    pub open spec fn fresh(config: ConfigView) -> ClientView {
        let model = ModelView::fresh(kept_at_least_one(config.retention as nat));
        ClientView {
            config: config.filled(),
            phase: Phase::Disconnected,
            caps: CapsView::none(),
            nick: config.nick,
            isupport: FeaturesView::silent(),
            model: ModelView { me: MeView { nick: config.nick, ..model.me }, ..model },
            batches: BatchesView::none(DEFAULT_MAX_BUFFERED),
            monitor: MonitorView::nobody(),
            channel_keys: Map::empty(),
            metadata_subscriptions: Seq::empty(),
            rooms: Map::empty(),
            commands: Set::empty(),
            timers: Map::empty(),
            labels: LabelsView::none(),
            backoff: BackoffView {
                base_ms: DEFAULT_BASE_MS,
                cap_ms: DEFAULT_CAP_MS,
                max_attempts: DEFAULT_MAX_ATTEMPTS,
                attempts: 0,
            },
            monotonic_ms: 0,
            latest_ms: 0,
            discarding: false,
            dropped_lines: 0,
            sasl: SaslState::Idle,
            scram: None,
            nick_attempt: 0,
            partial: Seq::empty(),
            outbox: Seq::empty(),
            events: Seq::empty(),
        }
    }

    /// With a line to write.
    pub open spec fn sending(self, line: LineView) -> ClientView {
        ClientView { outbox: self.outbox.push(written(line)), ..self }
    }

    /// With these lines to write.
    pub open spec fn sending_all(self, lines: Seq<LineView>) -> ClientView {
        ClientView { outbox: self.outbox + lines.map_values(as_written()), ..self }
    }

    /// With something to tell.
    pub open spec fn telling(self, event: EventView) -> ClientView {
        ClientView { events: self.events.push(event), ..self }
    }

    /// With these things to tell.
    pub open spec fn telling_all(self, events: Seq<EventView>) -> ClientView {
        ClientView { events: self.events + events, ..self }
    }

    /// With a line that was not read.
    pub open spec fn dropping_a_line(self) -> ClientView {
        ClientView { dropped_lines: one_more(self.dropped_lines), ..self }
    }

    /// With the keepalive clock started over.
    pub open spec fn kept_alive(self) -> ClientView {
        ClientView {
            timers: self.timers.remove(DeadlineView::DeadLink).insert(
                DeadlineView::PingKeepalive,
                later(self.monotonic_ms, PING_KEEPALIVE_MS),
            ),
            ..self
        }
    }

    /// After the transport came up.
    pub open spec fn connecting(self) -> ClientView {
        ClientView {
            phase: Phase::Negotiating,
            backoff: BackoffView { attempts: 0, ..self.backoff },
            timers: self.timers.remove(DeadlineView::Reconnect),
            ..self
        }.kept_alive().sending_all(registration(self.config))
    }

    /// With what only holds while we are connected gone. The messages stay, because they happened;
    /// who is in a channel does not, because it is a live view.
    pub open spec fn cut_off(self) -> ClientView {
        ClientView {
            phase: Phase::Disconnected,
            batches: BatchesView { by_reference: Map::empty(), ..self.batches },
            caps: CapsView::none(),
            sasl: SaslState::Idle,
            monitor: MonitorView { online: Set::empty(), ..self.monitor },
            model: self.model.without_members(),
            timers: self.timers.remove(DeadlineView::PingKeepalive).remove(DeadlineView::DeadLink),
            ..self
        }
    }

    /// After the transport died: with the next attempt to connect armed, or given up on.
    pub open spec fn disconnecting(self) -> ClientView {
        let down = self.cut_off();
        if down.backoff.attempts < down.backoff.max_attempts {
            let after_ms = down.backoff.delay(down.backoff.attempts) as u64;
            ClientView {
                backoff: BackoffView {
                    attempts: (down.backoff.attempts + 1) as u32,
                    ..down.backoff
                },
                timers: down.timers.insert(
                    DeadlineView::Reconnect,
                    later(down.monotonic_ms, after_ms),
                ),
                ..down
            }.telling(EventView::Reconnect { after_ms })
        } else {
            down.telling(EventView::ReconnectGaveUp)
        }
    }

    /// After someone's typing indicator went stale.
    pub open spec fn typing_stale(self, target: Seq<char>, who: Seq<char>) -> ClientView {
        let quiet = ClientView { model: self.model.with_typing(target, who, false), ..self };
        if self.model.typing_is_news(target, who, false) {
            quiet.telling(EventView::Typing { target, nick: who, typing: false })
        } else {
            quiet
        }
    }

    /// After a deadline passed.
    pub open spec fn past_deadline(self, deadline: DeadlineView) -> ClientView {
        match deadline {
            DeadlineView::PingKeepalive => ClientView {
                timers: self.timers.insert(
                    DeadlineView::DeadLink,
                    later(self.monotonic_ms, DEAD_LINK_MS),
                ),
                ..self
            }.sending(LineView::plain("PING"@, seq![self.nick])),
            DeadlineView::DeadLink => self.telling(EventView::LinkDead),
            DeadlineView::Reconnect => self.telling(EventView::Reconnect { after_ms: 0 }),
            DeadlineView::Typing(target, who) => self.typing_stale(target, who),
        }
    }

    /// After these deadlines passed, one after the other.
    pub open spec fn past_deadlines(self, deadlines: Seq<DeadlineView>) -> ClientView
        decreases deadlines.len(),
    {
        if deadlines.len() == 0 {
            self
        } else {
            self.past_deadlines(deadlines.drop_last()).past_deadline(deadlines.last())
        }
    }

    /// With the commands that are overdue given up on.
    pub open spec fn labels_expired(self, now: u64) -> ClientView {
        let late = overdue(self.labels.pending, now);
        ClientView {
            labels: LabelsView {
                pending: in_time(self.labels.pending, now),
                open_batches: without_batches(self.labels.open_batches, late),
                ..self.labels
            },
            ..self
        }.telling_all(late.map_values(timed_out()))
    }

    /// After the clock was read.
    pub open spec fn ticking(self, now: Now) -> ClientView {
        ClientView {
            monotonic_ms: now.monotonic_ms,
            latest_ms: if self.latest_ms < now.unix_ms {
                now.unix_ms
            } else {
                self.latest_ms
            },
            timers: still_armed(self.timers, now.monotonic_ms),
            ..self
        }.past_deadlines(expired(self.timers, now.monotonic_ms)).labels_expired(now.monotonic_ms)
    }

    /// After the clock was read this often, and nothing else happened.
    pub open spec fn ticking_all(self, nows: Seq<Now>) -> ClientView
        decreases nows.len(),
    {
        if nows.len() == 0 {
            self
        } else {
            self.ticking_all(nows.drop_last()).ticking(nows.last())
        }
    }

    /// True when the clock next has something to do at this instant, or never: the first deadline
    /// that is armed passes, or the first command that is outstanding is given up on.
    pub open spec fn wakes_at(self, next: Option<u64>) -> bool {
        match next {
            Some(at) => {
                &&& (exists|k: DeadlineView| #[trigger]
                    self.timers.contains_key(k) && self.timers[k] == at) || (exists|k: Seq<char>|
                 #[trigger]
                    self.labels.pending.contains_key(k) && self.labels.pending[k].deadline_ms == at)
                &&& forall|k: DeadlineView| #[trigger]
                    self.timers.contains_key(k) ==> at <= self.timers[k]
                &&& forall|k: Seq<char>| #[trigger]
                    self.labels.pending.contains_key(k) ==> at <= self.labels.pending[k].deadline_ms
            },
            None => {
                &&& self.timers == Map::<DeadlineView, u64>::empty()
                &&& self.labels.pending == Map::<Seq<char>, PendingView<Seq<char>>>::empty()
            },
        }
    }

    /// True when the next command can have a label, or needs none.
    pub open spec fn has_labels_left(self) -> bool {
        self.caps.acknowledged.contains_key("labeled-response"@) ==> self.labels.next_id < u64::MAX
    }

    /// The label that the next command gets, where commands are labelled.
    pub open spec fn next_label(self) -> Option<Seq<char>> {
        if self.caps.acknowledged.contains_key("labeled-response"@) {
            Some(label_of((self.labels.next_id + 1) as nat))
        } else {
            None
        }
    }

    /// With a line to write whose answer will be known by its label. A server that does not know
    /// labels gets the line without one.
    pub open spec fn sending_labeled(self, line: LineView) -> ClientView {
        match self.next_label() {
            None => self.sending(line),
            Some(label) => ClientView {
                labels: LabelsView {
                    next_id: (self.labels.next_id + 1) as u64,
                    ..self.labels
                }.with(label, later(self.monotonic_ms, DEFAULT_TIMEOUT_MS), line.command),
                ..self
            }.sending(line.with_tag("label"@, label)),
        }
    }

    /// After a line was folded into the model. One that changes nothing is handed on as it is, and
    /// one that renames us renames the connection too.
    #[verifier::opaque]
    pub open spec fn folding(self, line: LineView, historical: bool) -> ClientView {
        let o = on_line(self.model, self.isupport, self.latest_ms, historical, line);
        let at = ClientView {
            nick: o.model.me.nick,
            model: o.model,
            latest_ms: o.latest_ms,
            ..self
        };
        if o.changes.len() == 0 {
            at.telling(EventView::Raw { message: line })
        } else {
            at.sending_all(who_lines(self.isupport, o.changes)).telling_all(
                o.changes.map_values(changed()),
            )
        }
    }

    /// After these lines were folded in.
    pub open spec fn folding_all(self, lines: Seq<LineView>, historical: bool) -> ClientView
        decreases lines.len(),
    {
        if lines.len() == 0 {
            self
        } else {
            self.folding_all(lines.drop_last(), historical).folding(lines.last(), historical)
        }
    }

    /// A line as the server would echo it.
    pub open spec fn echoed(self, line: LineView) -> LineView {
        LineView { source: Some(SourceView { name: self.nick, user: None, host: None }), ..line }
    }

    /// After we said something in a conversation. Where no echo is coming we record it ourselves,
    /// as the echo would have been.
    pub open spec fn saying(self, line: LineView) -> ClientView {
        let said = self.sending_labeled(line);
        if self.caps.acknowledged.contains_key("echo-message"@) {
            said
        } else {
            said.folding(self.echoed(line), false)
        }
    }

    /// How many targets a `MONITOR` request may name.
    pub open spec fn monitor_limit(self) -> nat {
        match self.isupport.number("MONITOR"@) {
            Some(n) => n,
            None => DEFAULT_MONITOR_LIMIT as nat,
        }
    }

    /// After we asked to watch these nicks, or to stop watching them.
    pub open spec fn setting_watch(self, nicks: Seq<Seq<char>>, watching: bool) -> ClientView {
        let folds = nicks.map_values(|nick: Seq<char>| self.isupport.fold(nick)).to_set();
        let verb = if watching {
            "+"@
        } else {
            "-"@
        };
        ClientView {
            monitor: if watching {
                self.monitor.with(folds)
            } else {
                self.monitor.without(folds)
            },
            ..self
        }.sending_all(requests(nicks, self.monitor_limit()).map_values(monitor_request(verb)))
    }

    /// After we asked to join a channel. The key is remembered, because a reconnect needs it.
    pub open spec fn joining(self, channel: Seq<char>, key: Option<Seq<char>>) -> ClientView {
        ClientView {
            channel_keys: match key {
                Some(key) => self.channel_keys.insert(self.isupport.fold(channel), key),
                None => self.channel_keys.remove(self.isupport.fold(channel)),
            },
            ..self
        }.sending_labeled(with_optional("JOIN"@, seq![channel], key))
    }

    /// After we asked to be told of metadata keys. They are remembered, because a reconnect asks
    /// again.
    pub open spec fn subscribing(self, keys: Seq<Seq<char>>) -> ClientView {
        ClientView {
            metadata_subscriptions: with_new(self.metadata_subscriptions, keys),
            ..self
        }.sending_labeled(LineView::plain("METADATA"@, seq!["*"@, "SUB"@] + keys))
    }

    /// After the host asked for something.
    pub open spec fn commanding(self, command: CommandView) -> ClientView {
        match command {
            CommandView::SendMessage { target, text } => self.saying(
                LineView::plain("PRIVMSG"@, seq![target, text]),
            ),
            CommandView::SendNotice { target, text } => self.saying(
                LineView::plain("NOTICE"@, seq![target, text]),
            ),
            CommandView::SendAction { target, text } => self.saying(
                LineView::plain(
                    "PRIVMSG"@,
                    seq![target, "\u{1}ACTION "@ + text + "\u{1}"@],
                ),
            ),
            CommandView::Join { channel, key } => self.joining(channel, key),
            CommandView::SubscribeMetadata { keys } => self.subscribing(keys),
            CommandView::WatchNicks { nicks } => self.setting_watch(nicks, true),
            CommandView::UnwatchNicks { nicks } => self.setting_watch(nicks, false),
            _ => match wire_of(command) {
                Some(line) => self.sending_labeled(line),
                None => self,
            },
        }
    }

    /// The lines that put us back into a channel, and ask only for what happened while we were
    /// gone.
    pub open spec fn rejoin(self, channel: Seq<char>) -> Seq<LineView> {
        let name = self.model.channels[channel].name;
        let log = self.model.channels[channel].log.in_time();
        let folded = self.isupport.fold(name);
        let key = if self.channel_keys.contains_key(folded) {
            Some(self.channel_keys[folded])
        } else {
            None
        };
        let join = seq![with_optional("JOIN"@, seq![name], key)];
        if self.caps.acknowledged.contains_key("draft/chathistory"@) && log.len() > 0
            && log.last().msgid is Some {
            join.push(
                LineView::plain(
                    "CHATHISTORY"@,
                    seq!["AFTER"@, name, "msgid="@ + log.last().msgid->0, "100"@],
                ),
            )
        } else {
            join
        }
    }

    /// The lines that put us back into these channels.
    pub open spec fn rejoins(self, channels: Seq<Seq<char>>) -> Seq<LineView>
        decreases channels.len(),
    {
        if channels.len() == 0 {
            Seq::empty()
        } else {
            self.rejoins(channels.drop_last()) + self.rejoin(channels.last())
        }
    }

    /// The lines that put the connection back where it was: whom we watch, what we subscribed to,
    /// and where we were.
    pub open spec fn resumption(self) -> Seq<LineView> {
        let metadata = if self.metadata_subscriptions.len() == 0 {
            Seq::empty()
        } else {
            seq![
                LineView::plain("METADATA"@, seq!["*"@, "SUB"@] + self.metadata_subscriptions),
            ]
        };
        requests(in_order(self.monitor.watching), self.monitor_limit()).map_values(
            monitor_request("+"@),
        ) + metadata + self.rejoins(in_order(self.model.channels.dom()))
    }

    /// After `001`.
    #[verifier::opaque]
    pub open spec fn registering(self, line: LineView) -> ClientView {
        let nick = match line.param(0) {
            Some(nick) => nick,
            None => self.nick,
        };
        let up = ClientView {
            phase: Phase::Registered,
            nick,
            model: ModelView { me: MeView { nick, ..self.model.me }, ..self.model },
            ..self
        }.telling(EventView::Registered { nick });
        up.sending_all(up.resumption())
    }

    /// After a token of `005`.
    pub open spec fn supporting(self, token: Seq<char>) -> ClientView {
        let read = token_read(self.isupport.tokens, token);
        ClientView { isupport: self.isupport.with(token), ..self }.telling(
            EventView::Isupport { token: read.name, value: read.value },
        )
    }

    /// After these tokens of `005`.
    pub open spec fn supporting_all(self, tokens: Seq<Seq<char>>) -> ClientView
        decreases tokens.len(),
    {
        if tokens.len() == 0 {
            self
        } else {
            self.supporting_all(tokens.drop_last()).supporting(tokens.last())
        }
    }

    /// True when a line says that someone is typing, or no longer.
    pub open spec fn is_typing_line(line: LineView) -> bool {
        &&& line.is("TAGMSG"@)
        &&& line.tag("+typing"@) is Some
        &&& line.param(0) is Some
        &&& line.source is Some
    }

    /// After a line that says that someone is typing, or no longer. A line to us belongs to the
    /// conversation with its sender.
    #[verifier::opaque]
    pub open spec fn on_typing(self, line: LineView) -> ClientView {
        let who = line.source->0.name;
        let target = if self.isupport.is_channel(line.param(0)->0) {
            line.param(0)->0
        } else {
            who
        };
        let folded_target = self.isupport.fold(target);
        let folded_who = self.isupport.fold(who);
        let typing = line.tag("+typing"@)->0 == "active"@;
        let deadline = DeadlineView::Typing(folded_target, folded_who);
        let at = ClientView {
            timers: if typing {
                self.timers.insert(deadline, later(self.monotonic_ms, TYPING_EXPIRY_MS))
            } else {
                self.timers.remove(deadline)
            },
            model: self.model.with_typing(folded_target, folded_who, typing),
            ..self
        };
        if self.model.typing_is_news(folded_target, folded_who, typing) {
            at.telling(EventView::Typing { target, nick: who, typing })
        } else {
            at
        }
    }

    /// True when a line carries voice signalling.
    pub open spec fn is_rtc_line(line: LineView) -> bool {
        line.is("TAGMSG"@) && line.tag("+obsidianirc/rtc"@) is Some && line.param(0) is Some
    }

    /// After a line that carries voice signalling. A frame that cannot be read is still signalling.
    #[verifier::opaque]
    pub open spec fn on_rtc(self, line: LineView) -> ClientView {
        let channel = line.param(0)->0;
        match decoded(line.tag("+obsidianirc/rtc"@)->0) {
            None => self.dropping_a_line(),
            Some(signal) => {
                let folded = self.isupport.fold(channel);
                let room = if self.rooms.contains_key(folded) {
                    self.rooms[folded]
                } else {
                    RoomView::empty(channel)
                };
                ClientView {
                    rooms: self.rooms.insert(
                        folded,
                        room.after(self.nick, signal, self.isupport.casemapping()),
                    ),
                    ..self
                }.telling(EventView::Voice { channel, signal })
            },
        }
    }

    /// After one target of `730` or `731`. A target is a full mask, and only the nick says who it
    /// is.
    pub open spec fn seeing(self, target: Seq<char>, online: bool) -> ClientView {
        let nick = before_first(target, '!');
        let folded = self.isupport.fold(nick);
        ClientView {
            monitor: if online {
                self.monitor.with_online(folded)
            } else {
                self.monitor.with_offline(folded)
            },
            ..self
        }.telling(EventView::Presence { nick, online })
    }

    /// After these targets of `730` or `731`.
    pub open spec fn seeing_all(self, targets: Seq<Seq<char>>, online: bool) -> ClientView
        decreases targets.len(),
    {
        if targets.len() == 0 {
            self
        } else {
            self.seeing_all(targets.drop_last(), online).seeing(targets.last(), online)
        }
    }

    /// After `730` (online) or `731` (offline).
    #[verifier::opaque]
    pub open spec fn on_monitor(self, line: LineView) -> ClientView {
        match line.param(1) {
            Some(list) => self.seeing_all(targets_in(list), line.is("730"@)),
            None => self,
        }
    }

    /// After a `FAIL`, `WARN` or `NOTE`: the command, the code, what gives context, and the
    /// description, which is always last.
    #[verifier::opaque]
    pub open spec fn on_reply(self, severity: Severity, line: LineView) -> ClientView {
        let n = line.params.len() as int;
        self.telling(
            EventView::Reply {
                severity,
                command: line.param(0)->0,
                code: line.param(1)->0,
                context: if n > 3 {
                    line.params.subrange(2, n - 1)
                } else {
                    Seq::empty()
                },
                text: line.trailing_or_empty(),
            },
        )
    }

    /// True when there is an exchange to open.
    pub open spec fn wants_sasl(self) -> bool {
        self.sasl == SaslState::Idle && self.caps.acknowledged.contains_key("sasl"@)
            && self.config.sasl is Some
    }

    /// True when the server offers the mechanism of our credentials.
    pub open spec fn shares_mechanism(self) -> bool {
        offered(self.caps.acknowledged["sasl"@], self.config.sasl->0.mechanism())
    }

    /// After capabilities may have settled: with authentication opened where there is one to open,
    /// and otherwise with negotiation ended, unless it waits for an exchange.
    #[verifier::opaque]
    pub open spec fn settling(self) -> ClientView {
        if self.phase != Phase::Negotiating || self.caps.pending.len() > 0 {
            self
        } else if self.wants_sasl() && self.shares_mechanism() {
            ClientView { sasl: SaslState::Offered, ..self }.sending(
                LineView::plain("AUTHENTICATE"@, seq![self.config.sasl->0.mechanism()]),
            )
        } else if self.sasl.underway() {
            self
        } else {
            let at = if self.wants_sasl() {
                ClientView { sasl: SaslState::Settled, ..self }.telling(
                    EventView::SaslFailed { reason: SaslFailure::NoSharedMechanism },
                )
            } else {
                self
            };
            ClientView { phase: Phase::Registering, ..at }.sending(
                LineView::plain("CAP"@, seq!["END"@]),
            )
        }
    }

    /// After we asked for what we want of what is on offer. Each name goes in a line of its own,
    /// so that one that is refused does not take the rest with it.
    pub open spec fn requesting(self) -> ClientView {
        let wanted = self.caps.to_request();
        if wanted.len() == 0 {
            self.settling()
        } else {
            ClientView {
                caps: CapsView { pending: self.caps.pending + wanted, ..self.caps },
                ..self
            }.sending_all(wanted.map_values(cap_request()))
        }
    }

    /// After a line of `CAP`. The list is the last parameter, and a `*` before it says that more
    /// is to come.
    #[verifier::opaque]
    pub open spec fn on_cap(self, line: LineView) -> ClientView {
        let tokens = words(line.trailing_or_empty());
        match line.param(1) {
            None => self,
            Some(subcommand) => {
                let verb = upper(subcommand);
                if verb == "LS"@ {
                    let at = ClientView { caps: self.caps.offering(tokens), ..self };
                    if line.param(2) == Some("*"@) {
                        at
                    } else {
                        at.requesting()
                    }
                } else if verb == "NEW"@ {
                    ClientView { caps: self.caps.offering(tokens), ..self }.requesting()
                } else if verb == "DEL"@ {
                    ClientView { caps: self.caps.withdrawing(tokens), ..self }
                } else if verb == "ACK"@ {
                    let names = granted(tokens);
                    let at = ClientView { caps: self.caps.acknowledging(tokens), ..self };
                    if names.len() == 0 {
                        at.settling()
                    } else {
                        at.telling(EventView::CapAcknowledged { names }).settling()
                    }
                } else if verb == "NAK"@ {
                    ClientView { caps: self.caps.rejecting(tokens), ..self }.settling()
                } else {
                    self
                }
            },
        }
    }

    /// After authentication ended, for this reason where it failed.
    #[verifier::opaque]
    pub open spec fn finishing_sasl(self, failure: Option<SaslFailure>) -> ClientView {
        if self.sasl == SaslState::Settled {
            self
        } else {
            let at = ClientView { sasl: SaslState::Settled, ..self };
            match failure {
                Some(reason) => at.telling(EventView::SaslFailed { reason }).settling(),
                None => at.settling(),
            }
        }
    }

    /// With these bytes sent as authentication.
    pub open spec fn sending_sasl(self, payload: Seq<u8>) -> ClientView {
        self.sending_all(response_lines(payload).map_values(authenticate()))
    }

    /// After the server invited us to authenticate.
    pub open spec fn opening_sasl(self) -> ClientView {
        match self.config.sasl {
            None => self,
            Some(CredentialsView::Scram { username, password, nonce }) => {
                let scram = ScramView::start(username, password, nonce);
                ClientView {
                    scram: Some(scram),
                    sasl: SaslState::ScramChallenged,
                    ..self
                }.sending_sasl(encode_utf8("n,,"@ + scram.client_first_bare))
            },
            Some(credentials) => ClientView {
                sasl: SaslState::Responded,
                ..self
            }.sending_sasl(credentials.response()),
        }
    }

    /// After the server sent its salt and its nonce: with the proof that we know the password.
    pub open spec fn answering_scram(self, bytes: Seq<u8>) -> ClientView {
        match self.scram {
            None => self.finishing_sasl(Some(SaslFailure::Aborted)),
            Some(scram) => {
                let at = ClientView { scram: Some(scram.after(bytes)), ..self };
                match scram.client_final(bytes) {
                    Ok(response) => ClientView {
                        sasl: SaslState::ScramProved,
                        ..at
                    }.sending_sasl(response),
                    Err(_) => at.finishing_sasl(Some(SaslFailure::Rejected)),
                }
            },
        }
    }

    /// After the server sent its own proof. One that fails ends the exchange; otherwise an empty
    /// response lets the server give its verdict.
    pub open spec fn verifying_scram(self, bytes: Seq<u8>) -> ClientView {
        match self.scram {
            None => self.finishing_sasl(Some(SaslFailure::Aborted)),
            Some(scram) => {
                let at = ClientView { scram: None, ..self };
                match scram.verified(bytes) {
                    Ok(_) => ClientView { sasl: SaslState::Responded, ..at }.sending(
                        LineView::plain("AUTHENTICATE"@, seq!["+"@]),
                    ),
                    Err(_) => at.finishing_sasl(Some(SaslFailure::ServerNotVerified)),
                }
            },
        }
    }

    /// After a challenge, or one that cannot be read.
    pub open spec fn challenged(self, bytes: Option<Seq<u8>>) -> ClientView {
        match bytes {
            None => self.finishing_sasl(Some(SaslFailure::Aborted)),
            Some(bytes) => match self.sasl {
                SaslState::Offered => self.opening_sasl(),
                SaslState::ScramChallenged => self.answering_scram(bytes),
                SaslState::ScramProved => self.verifying_scram(bytes),
                _ => self,
            },
        }
    }

    /// After a line of `AUTHENTICATE`.
    #[verifier::opaque]
    pub open spec fn on_authenticate(self, line: LineView) -> ClientView {
        self.challenged(
            challenge(
                match line.param(0) {
                    Some(payload) => payload,
                    None => "+"@,
                },
            ),
        )
    }

    /// After a nick was refused. During registration the fallback nicks are tried, then underscores
    /// are appended; after it the host asked for the nick, and decides.
    #[verifier::opaque]
    pub open spec fn on_nick_refused(self, line: LineView) -> ClientView {
        if self.phase == Phase::Registered {
            self.telling(EventView::Raw { message: line })
        } else {
            let refused = match line.param(1) {
                Some(refused) => refused,
                None => self.nick,
            };
            let trying = if self.nick_attempt < self.config.alt_nicks.len() {
                self.config.alt_nicks[self.nick_attempt as int]
            } else {
                self.nick.push('_')
            };
            ClientView {
                nick_attempt: if self.nick_attempt == usize::MAX {
                    usize::MAX
                } else {
                    (self.nick_attempt + 1) as usize
                },
                nick: trying,
                model: ModelView { me: MeView { nick: trying, ..self.model.me }, ..self.model },
                ..self
            }.telling(EventView::NickInUse { refused, trying }).sending(
                LineView::plain("NICK"@, seq![trying]),
            )
        }
    }

    /// After a batch finished. An inner batch closes while its parent is still open, so the whole
    /// chain says whether its lines are replayed history.
    #[verifier::opaque]
    pub open spec fn draining(self, batch: BatchView) -> ClientView {
        let historical = batch.kind == "chathistory"@ || match batch.parent {
            Some(parent) => self.batches.within(parent, "chathistory"@),
            None => false,
        };
        self.folding_all(batch.messages, historical)
    }

    /// After a line of `BATCH`.
    #[verifier::opaque]
    pub open spec fn on_batch(self, line: LineView) -> ClientView {
        let marker = line.param_or_empty(0);
        if marker.len() > 0 && marker[0] == '+' {
            ClientView { batches: self.batches.opening(line), ..self }
        } else {
            match self.batches.closed_by(line) {
                Some(batch) => ClientView {
                    batches: self.batches.closing(line),
                    ..self
                }.draining(batch),
                None => self,
            }
        }
    }

    /// After `900`, which names the account.
    pub open spec fn on_logged_in(self, line: LineView) -> ClientView {
        match line.param(2) {
            Some(account) => self.telling(EventView::LoggedIn { account }),
            None => self,
        }
    }

    /// After a line that none of the engine's own business takes: held by the batch that it belongs
    /// to, or folded into the model.
    pub open spec fn on_content(self, line: LineView) -> ClientView {
        if self.batches.takes(line) {
            ClientView { batches: self.batches.routing(line), ..self }
        } else {
            self.folding(line, false)
        }
    }

    /// What a line that concerns authentication or batches does, and any other.
    #[verifier::opaque]
    pub open spec fn on_rest(self, line: LineView) -> ClientView {
        if line.is("AUTHENTICATE"@) {
            self.on_authenticate(line)
        } else if line.is("433"@) || line.is("432"@) {
            self.on_nick_refused(line)
        } else if failure_named(line.command) is Some {
            self.finishing_sasl(failure_named(line.command))
        } else if line.is("900"@) {
            self.on_logged_in(line)
        } else if line.is("903"@) {
            self.finishing_sasl(None)
        } else if line.is("BATCH"@) {
            self.on_batch(line)
        } else {
            self.on_content(line)
        }
    }

    /// What a line does, once the link is known to be alive and its label is resolved.
    #[verifier::opaque]
    pub open spec fn handling(self, line: LineView) -> ClientView {
        if line.is("PONG"@) {
            self
        } else if line.is("PING"@) {
            self.sending(LineView::plain("PONG"@, seq![line.trailing_or_empty()]))
        } else if line.is("CAP"@) {
            self.on_cap(line)
        } else if line.is("001"@) {
            self.registering(line)
        } else if line.is("005"@) {
            let n = line.params.len() as int;
            if n > 2 {
                self.supporting_all(line.params.subrange(1, n - 1))
            } else {
                self
            }
        } else if Self::is_typing_line(line) {
            self.on_typing(line)
        } else if Self::is_rtc_line(line) {
            self.on_rtc(line)
        } else if line.is("CMDSLIST"@) {
            ClientView {
                commands: allowed_after(self.commands, all_words(line.params)),
                ..self
            }.telling(EventView::CommandsChanged)
        } else if line.command == "730"@ || line.command == "731"@ {
            self.on_monitor(line)
        } else if severity_named(line.command) is Some && line.param(1) is Some {
            self.on_reply(severity_named(line.command)->0, line)
        } else {
            self.on_rest(line)
        }
    }

    /// After a line came. Any line at all proves that the link is alive.
    #[verifier::opaque]
    pub open spec fn receiving(self, line: LineView) -> ClientView {
        let alive = self.kept_alive();
        ClientView { labels: alive.labels.after(line).0, ..alive }.handling(line)
    }

    /// After the bytes of one line came. What is left of a line that grew too long is skipped, and
    /// a line that does not parse is dropped.
    pub open spec fn taking(self, bytes: Seq<u8>) -> ClientView {
        if self.discarding {
            ClientView { discarding: false, ..self }
        } else {
            match parsed(lossy(bytes)) {
                Some(line) => self.receiving(line),
                None => self.dropping_a_line(),
            }
        }
    }

    /// After these bytes came: line by line, with what is not yet a line kept for later, unless it
    /// has grown too long. A line that is too long is counted once, however much of it comes.
    pub open spec fn reading(self, bytes: Seq<u8>) -> ClientView
        decreases bytes.len(),
    {
        proof {
            lemma_line_end(bytes);
        }
        let end = line_end(bytes) as int;
        if end < bytes.len() {
            self.taking(bytes.take(end + 1)).reading(bytes.skip(end + 1))
        } else if bytes.len() > MAX_INBOUND_LINE {
            if self.discarding {
                ClientView { partial: Seq::empty(), ..self }
            } else {
                ClientView { partial: Seq::empty(), discarding: true, ..self }.dropping_a_line()
            }
        } else {
            ClientView { partial: bytes, ..self }
        }
    }

    /// After the transport read these bytes, with what was left of the last ones before them.
    pub open spec fn feeding(self, bytes: Seq<u8>) -> ClientView {
        ClientView { partial: Seq::empty(), ..self }.reading(self.partial + bytes)
    }

    /// True when what belongs to the link itself is in both as it is in the other: how it is
    /// configured, what was read of a line, the clock, and the deadlines that watch over it.
    pub open spec fn same_link(self, other: ClientView) -> bool {
        &&& self.config == other.config
        &&& self.partial == other.partial
        &&& self.discarding == other.discarding
        &&& self.monotonic_ms == other.monotonic_ms
        &&& self.backoff == other.backoff
        &&& same_deadline(self.timers, other.timers, DeadlineView::PingKeepalive)
        &&& same_deadline(self.timers, other.timers, DeadlineView::DeadLink)
        &&& same_deadline(self.timers, other.timers, DeadlineView::Reconnect)
    }
}

impl ClientView {
    /// True when there are finitely many deadlines and finitely many channels.
    pub open spec fn finite(self) -> bool {
        &&& self.timers.dom().finite()
        &&& self.model.channels.dom().finite()
    }

    /// True when the connection and the model know us by one nick.
    pub open spec fn one_nick(self) -> bool {
        self.nick == self.model.me.nick
    }
}

/// True when a deadline is armed for the same instant in both, or in neither.
pub open spec fn same_deadline(
    a: Map<DeadlineView, u64>,
    b: Map<DeadlineView, u64>,
    deadline: DeadlineView,
) -> bool {
    &&& a.contains_key(deadline) == b.contains_key(deadline)
    &&& a.contains_key(deadline) ==> a[deadline] == b[deadline]
}

/// What stands behind the last newline.
pub open spec fn unfinished(bytes: Seq<u8>) -> Seq<u8>
    decreases bytes.len(),
{
    proof {
        lemma_line_end(bytes);
    }
    let end = line_end(bytes) as int;
    if end < bytes.len() {
        unfinished(bytes.skip(end + 1))
    } else {
        bytes
    }
}

proof fn lemma_folding_keeps_link(c: ClientView, lines: Seq<LineView>, historical: bool)
    ensures
        c.same_link(c.folding_all(lines, historical)),
    decreases lines.len(),
{
    if lines.len() > 0 {
        lemma_folding_keeps_link(c, lines.drop_last(), historical);
        reveal(ClientView::folding);
    }
}

proof fn lemma_supporting_keeps_link(c: ClientView, tokens: Seq<Seq<char>>)
    ensures
        c.same_link(c.supporting_all(tokens)),
    decreases tokens.len(),
{
    if tokens.len() > 0 {
        lemma_supporting_keeps_link(c, tokens.drop_last());
    }
}

proof fn lemma_seeing_keeps_link(c: ClientView, targets: Seq<Seq<char>>, online: bool)
    ensures
        c.same_link(c.seeing_all(targets, online)),
    decreases targets.len(),
{
    if targets.len() > 0 {
        lemma_seeing_keeps_link(c, targets.drop_last(), online);
    }
}

proof fn lemma_cap_keeps_link(c: ClientView, line: LineView)
    ensures
        c.same_link(c.on_cap(line)),
{
    reveal(ClientView::on_cap);
    reveal(ClientView::settling);
}

proof fn lemma_finishing_keeps_link(c: ClientView, failure: Option<SaslFailure>)
    ensures
        c.same_link(c.finishing_sasl(failure)),
{
    reveal(ClientView::finishing_sasl);
    reveal(ClientView::settling);
}

proof fn lemma_authenticating_keeps_link(c: ClientView, line: LineView)
    ensures
        c.same_link(c.on_authenticate(line)),
{
    reveal(ClientView::on_authenticate);
    reveal(ClientView::finishing_sasl);
    reveal(ClientView::settling);
}

proof fn lemma_batch_keeps_link(c: ClientView, line: LineView)
    ensures
        c.same_link(c.on_batch(line)),
{
    reveal(ClientView::on_batch);
    if c.batches.closed_by(line) is Some {
        let batch = c.batches.closed_by(line)->0;
        let closed = ClientView { batches: c.batches.closing(line), ..c };
        reveal(ClientView::draining);
        lemma_folding_keeps_link(closed, batch.messages, true);
        lemma_folding_keeps_link(closed, batch.messages, false);
    }
}

proof fn lemma_rest_keeps_link(c: ClientView, line: LineView)
    ensures
        c.same_link(c.on_rest(line)),
{
    reveal(ClientView::on_rest);
    reveal(ClientView::on_nick_refused);
    reveal(ClientView::folding);
    lemma_authenticating_keeps_link(c, line);
    lemma_finishing_keeps_link(c, None);
    lemma_finishing_keeps_link(c, failure_named(line.command));
    lemma_batch_keeps_link(c, line);
}

proof fn lemma_handling_keeps_link(c: ClientView, line: LineView)
    ensures
        c.same_link(c.handling(line)),
{
    reveal(ClientView::handling);
    reveal(ClientView::registering);
    reveal(ClientView::on_typing);
    reveal(ClientView::on_rtc);
    reveal(ClientView::on_monitor);
    reveal(ClientView::on_reply);
    lemma_cap_keeps_link(c, line);
    lemma_supporting_keeps_link(c, line.params.subrange(1, line.params.len() - 1));
    if line.param(1) is Some {
        lemma_seeing_keeps_link(c, targets_in(line.param(1)->0), line.is("730"@));
    }
    lemma_rest_keeps_link(c, line);
}

/// Any line at all proves that the link is alive: the next keepalive is a full interval away, and
/// nothing waits for an answer to the last.
pub proof fn law_any_line_keeps_the_link_alive(c: ClientView, line: LineView)
    ensures
        ({
            let after = c.receiving(line);
            &&& after.timers.contains_key(DeadlineView::PingKeepalive)
            &&& after.timers[DeadlineView::PingKeepalive] == later(
                c.monotonic_ms,
                PING_KEEPALIVE_MS,
            )
            &&& !after.timers.contains_key(DeadlineView::DeadLink)
        }),
{
    reveal(ClientView::receiving);
    let alive = c.kept_alive();
    lemma_handling_keeps_link(
        ClientView { labels: alive.labels.after(line).0, ..alive },
        line,
    );
}

/// What deadlines that pass do to what is written, armed and told.
proof fn lemma_past_deadlines(c: ClientView, deadlines: Seq<DeadlineView>)
    requires
        deadlines.no_duplicates(),
    ensures
        ({
            let after = c.past_deadlines(deadlines);
            let ping = deadlines.contains(DeadlineView::PingKeepalive);
            &&& after.nick == c.nick
            &&& after.monotonic_ms == c.monotonic_ms
            &&& after.labels == c.labels
            &&& after.outbox == (if ping {
                c.outbox.push(written(LineView::plain("PING"@, seq![c.nick])))
            } else {
                c.outbox
            })
            &&& after.timers == (if ping {
                c.timers.insert(DeadlineView::DeadLink, later(c.monotonic_ms, DEAD_LINK_MS))
            } else {
                c.timers
            })
            &&& after.events.len() >= c.events.len()
            &&& after.events.take(c.events.len() as int) == c.events
            &&& !deadlines.contains(DeadlineView::DeadLink) ==> forall|i: int|
                c.events.len() <= i < after.events.len() ==> !(#[trigger] after.events[i]
                    is LinkDead)
        }),
    decreases deadlines.len(),
{
    if deadlines.len() == 0 {
        assert(c.events.take(c.events.len() as int) =~= c.events);
    } else {
        let rest = deadlines.drop_last();
        let last = deadlines.last();
        lemma_past_deadlines(c, rest);
        assert(deadlines =~= rest.push(last));
        assert(deadlines[deadlines.len() - 1] == last);
        assert forall|d: DeadlineView| #[trigger] deadlines.contains(d) <==> rest.contains(d) || d
            == last by {
            if rest.contains(d) {
                assert(deadlines[rest.index_of(d)] == d);
            }
            if deadlines.contains(d) && d != last {
                assert(rest[deadlines.index_of(d)] == d);
            }
        }
        if rest.contains(last) {
            assert(deadlines[rest.index_of(last)] == last);
        }
        let before = c.past_deadlines(rest);
        let after = c.past_deadlines(deadlines);
        assert(after.events.take(c.events.len() as int) =~= before.events.take(
            c.events.len() as int,
        ));
    }
}

/// What one tick does to the keepalive of a link.
pub(crate) proof fn lemma_tick(c: ClientView, now: Now)
    requires
        c.timers.dom().finite(),
    ensures
        ({
            let after = c.ticking(now);
            let ping = c.timers.contains_key(DeadlineView::PingKeepalive)
                && c.timers[DeadlineView::PingKeepalive] <= now.monotonic_ms;
            let dead = c.timers.contains_key(DeadlineView::DeadLink)
                && c.timers[DeadlineView::DeadLink] <= now.monotonic_ms;
            let armed = still_armed(c.timers, now.monotonic_ms);
            &&& after.nick == c.nick
            &&& after.outbox == (if ping {
                c.outbox.push(written(LineView::plain("PING"@, seq![c.nick])))
            } else {
                c.outbox
            })
            &&& after.timers == (if ping {
                armed.insert(DeadlineView::DeadLink, later(now.monotonic_ms, DEAD_LINK_MS))
            } else {
                armed
            })
            &&& after.timers.dom().finite()
            &&& after.events.len() >= c.events.len()
            &&& after.events.take(c.events.len() as int) == c.events
            &&& !dead ==> forall|i: int|
                c.events.len() <= i < after.events.len() ==> !(#[trigger] after.events[i]
                    is LinkDead)
        }),
{
    let due = expired(c.timers, now.monotonic_ms);
    lemma_expired_once(c.timers, now.monotonic_ms);
    let started = ClientView {
        monotonic_ms: now.monotonic_ms,
        latest_ms: if c.latest_ms < now.unix_ms {
            now.unix_ms
        } else {
            c.latest_ms
        },
        timers: still_armed(c.timers, now.monotonic_ms),
        ..c
    };
    lemma_past_deadlines(started, due);
    assert(due.contains(DeadlineView::PingKeepalive) <==> c.timers.contains_key(
        DeadlineView::PingKeepalive,
    ) && c.timers[DeadlineView::PingKeepalive] <= now.monotonic_ms);
    assert(due.contains(DeadlineView::DeadLink) <==> c.timers.contains_key(DeadlineView::DeadLink)
        && c.timers[DeadlineView::DeadLink] <= now.monotonic_ms);
    let passed = started.past_deadlines(due);
    let after = c.ticking(now);
    let late = overdue(passed.labels.pending, now.monotonic_ms).map_values(timed_out());
    assert(after.events == passed.events + late);
    assert(after.events.take(c.events.len() as int) =~= passed.events.take(c.events.len() as int));
    assert forall|i: int| passed.events.len() <= i < after.events.len() implies !(
    #[trigger] after.events[i] is LinkDead) by {
        assert(after.events[i] == late[i - passed.events.len()]);
    }
    assert forall|i: int|
        c.events.len() <= i < passed.events.len() implies #[trigger] after.events[i]
        == passed.events[i] by {}
    let armed = still_armed(c.timers, now.monotonic_ms);
    assert(armed.dom().subset_of(c.timers.dom()));
    vstd::set_lib::lemma_set_subset_finite(c.timers.dom(), armed.dom());
    assert(after.timers.dom().finite());
    assert(after.timers == passed.timers);
}

/// True when one of these readings of the clock is at this instant or later.
pub open spec fn reaches(nows: Seq<Now>, at: int) -> bool {
    exists|i: int| 0 <= i < nows.len() && (#[trigger] nows[i]).monotonic_ms >= at
}

proof fn lemma_reaches(nows: Seq<Now>, at: int)
    requires
        nows.len() > 0,
    ensures
        reaches(nows, at) <==> reaches(nows.drop_last(), at) || nows.last().monotonic_ms >= at,
{
    let rest = nows.drop_last();
    if reaches(rest, at) {
        let i = choose|i: int| 0 <= i < rest.len() && (#[trigger] rest[i]).monotonic_ms >= at;
        assert(nows[i].monotonic_ms >= at);
    }
    if nows.last().monotonic_ms >= at {
        assert(nows[nows.len() - 1].monotonic_ms >= at);
    }
    if reaches(nows, at) && nows.last().monotonic_ms < at {
        let i = choose|i: int| 0 <= i < nows.len() && (#[trigger] nows[i]).monotonic_ms >= at;
        assert(rest[i].monotonic_ms >= at);
    }
}

/// What a run of ticks does to a link whose keepalive is armed for an instant.
proof fn lemma_ticks(c: ClientView, at: u64, nows: Seq<Now>)
    requires
        c.timers.dom().finite(),
        at <= u64::MAX - DEAD_LINK_MS,
        c.timers.contains_key(DeadlineView::PingKeepalive),
        c.timers[DeadlineView::PingKeepalive] == at,
        !c.timers.contains_key(DeadlineView::DeadLink),
    ensures
        ({
            let run = c.ticking_all(nows);
            &&& run.nick == c.nick
            &&& run.timers.dom().finite()
            &&& run.outbox == (if reaches(nows, at as int) {
                c.outbox.push(written(LineView::plain("PING"@, seq![c.nick])))
            } else {
                c.outbox
            })
            &&& run.timers.contains_key(DeadlineView::PingKeepalive) <==> !reaches(nows, at as int)
            &&& run.timers.contains_key(DeadlineView::PingKeepalive)
                ==> run.timers[DeadlineView::PingKeepalive] == at && !run.timers.contains_key(
                DeadlineView::DeadLink,
            )
            &&& run.timers.contains_key(DeadlineView::DeadLink)
                ==> run.timers[DeadlineView::DeadLink] >= at + DEAD_LINK_MS
            &&& run.events.len() >= c.events.len()
            &&& run.events.take(c.events.len() as int) == c.events
            &&& !reaches(nows, at + DEAD_LINK_MS) ==> forall|i: int|
                c.events.len() <= i < run.events.len() ==> !(#[trigger] run.events[i] is LinkDead)
        }),
    decreases nows.len(),
{
    if nows.len() == 0 {
        assert(c.events.take(c.events.len() as int) =~= c.events);
    } else {
        let rest = nows.drop_last();
        let now = nows.last();
        lemma_ticks(c, at, rest);
        lemma_reaches(nows, at as int);
        lemma_reaches(nows, at + DEAD_LINK_MS);
        let before = c.ticking_all(rest);
        lemma_tick(before, now);
        let run = c.ticking_all(nows);
        assert(run == before.ticking(now));
        assert(run.events.take(c.events.len() as int) =~= run.events.take(
            before.events.len() as int,
        ).take(c.events.len() as int));
        if !reaches(nows, at + DEAD_LINK_MS) {
            assert forall|i: int| c.events.len() <= i < run.events.len() implies !(
            #[trigger] run.events[i] is LinkDead) by {
                if i < before.events.len() {
                    assert(run.events.take(before.events.len() as int)[i] == run.events[i]);
                    assert(before.events[i] == run.events[i]);
                }
            }
        }
    }
}

/// A link that has fallen silent is pinged once and not given up on early: however often the clock
/// is read after a line, and whatever was outstanding before it, nothing is written until a keepalive
/// interval has passed, then one PING is; and the link is not called dead before the time to answer
/// that PING has passed too.
pub proof fn law_silent_link_is_pinged_once(c: ClientView, line: LineView, nows: Seq<Now>)
    requires
        c.monotonic_ms <= u64::MAX - PING_KEEPALIVE_MS - DEAD_LINK_MS,
        c.receiving(line).timers.dom().finite(),
    ensures
        ({
            let after = c.receiving(line);
            let run = after.ticking_all(nows);
            let ping = c.monotonic_ms + PING_KEEPALIVE_MS;
            &&& !reaches(nows, ping) ==> run.outbox == after.outbox
            &&& reaches(nows, ping) ==> run.outbox == after.outbox.push(
                written(LineView::plain("PING"@, seq![after.nick])),
            )
            &&& run.events.len() >= after.events.len()
            &&& !reaches(nows, ping + DEAD_LINK_MS) ==> forall|i: int|
                after.events.len() <= i < run.events.len() ==> !(#[trigger] run.events[i]
                    is LinkDead)
        }),
{
    law_any_line_keeps_the_link_alive(c, line);
    lemma_ticks(c.receiving(line), (c.monotonic_ms + PING_KEEPALIVE_MS) as u64, nows);
}

/// What was read of a line stays while another is handled.
pub(crate) proof fn lemma_taking_keeps_partial(c: ClientView, bytes: Seq<u8>)
    ensures
        c.taking(bytes).partial == c.partial,
{
    reveal(ClientView::receiving);
    if parsed(lossy(bytes)) is Some {
        let line = parsed(lossy(bytes))->0;
        let alive = c.kept_alive();
        lemma_handling_keeps_link(
            ClientView { labels: alive.labels.after(line).0, ..alive },
            line,
        );
    }
}

/// The first line ends where it ends, whatever comes behind it.
proof fn lemma_line_end_of_more(bytes: Seq<u8>, more: Seq<u8>)
    requires
        line_end(bytes) < bytes.len(),
    ensures
        line_end(bytes + more) == line_end(bytes),
    decreases bytes.len(),
{
    if bytes[0] != 10 {
        assert((bytes + more).skip(1) =~= bytes.skip(1) + more);
        lemma_line_end_of_more(bytes.skip(1), more);
    }
}

proof fn lemma_read_on(c: ClientView, bytes: Seq<u8>, more: Seq<u8>)
    requires
        c.partial == Seq::<u8>::empty(),
        unfinished(bytes).len() <= MAX_INBOUND_LINE,
    ensures
        c.reading(bytes).feeding(more) == c.reading(bytes + more),
    decreases bytes.len(),
{
    lemma_line_end(bytes);
    let end = line_end(bytes) as int;
    if end < bytes.len() {
        let all = bytes + more;
        lemma_line_end_of_more(bytes, more);
        assert(all.take(end + 1) =~= bytes.take(end + 1));
        assert(all.skip(end + 1) =~= bytes.skip(end + 1) + more);
        let next = c.taking(bytes.take(end + 1));
        lemma_taking_keeps_partial(c, bytes.take(end + 1));
        lemma_read_on(next, bytes.skip(end + 1), more);
    } else {
        let held = c.reading(bytes);
        assert(held == ClientView { partial: bytes, ..c });
        assert(ClientView { partial: Seq::empty(), ..held } == c);
    }
}

/// Bytes may come in any pieces: what is read of two pieces, one after the other, is what is read
/// of both at once. A line of which more than can be held came in the first piece is dropped there
/// and then, which reading both at once would not do.
pub proof fn law_bytes_may_come_in_pieces(c: ClientView, first: Seq<u8>, second: Seq<u8>)
    requires
        unfinished(c.partial + first).len() <= MAX_INBOUND_LINE,
    ensures
        c.feeding(first).feeding(second) == c.feeding(first + second),
{
    assert(c.partial + (first + second) =~= (c.partial + first) + second);
    lemma_read_on(
        ClientView { partial: Seq::empty(), ..c },
        c.partial + first,
        second,
    );
}

proof fn lemma_reading_is_bounded(c: ClientView, bytes: Seq<u8>)
    ensures
        c.reading(bytes).partial.len() <= MAX_INBOUND_LINE,
    decreases bytes.len(),
{
    lemma_line_end(bytes);
    let end = line_end(bytes) as int;
    if end < bytes.len() {
        lemma_reading_is_bounded(c.taking(bytes.take(end + 1)), bytes.skip(end + 1));
    }
}

/// However much comes without a newline, no more than the longest legal line is held.
pub proof fn law_buffer_stays_bounded(c: ClientView, bytes: Seq<u8>)
    ensures
        c.feeding(bytes).partial.len() <= MAX_INBOUND_LINE,
{
    lemma_reading_is_bounded(
        ClientView { partial: Seq::empty(), ..c },
        c.partial + bytes,
    );
}

proof fn lemma_folding_keeps_one_nick(c: ClientView, lines: Seq<LineView>, historical: bool)
    requires
        c.one_nick(),
    ensures
        c.folding_all(lines, historical).one_nick(),
    decreases lines.len(),
{
    if lines.len() > 0 {
        lemma_folding_keeps_one_nick(c, lines.drop_last(), historical);
        reveal(ClientView::folding);
    }
}

proof fn lemma_supporting_keeps_one_nick(c: ClientView, tokens: Seq<Seq<char>>)
    requires
        c.one_nick(),
    ensures
        c.supporting_all(tokens).one_nick(),
    decreases tokens.len(),
{
    if tokens.len() > 0 {
        lemma_supporting_keeps_one_nick(c, tokens.drop_last());
    }
}

proof fn lemma_seeing_keeps_one_nick(c: ClientView, targets: Seq<Seq<char>>, online: bool)
    requires
        c.one_nick(),
    ensures
        c.seeing_all(targets, online).one_nick(),
    decreases targets.len(),
{
    if targets.len() > 0 {
        lemma_seeing_keeps_one_nick(c, targets.drop_last(), online);
    }
}

proof fn lemma_deadlines_keep_one_nick(c: ClientView, deadlines: Seq<DeadlineView>)
    requires
        c.one_nick(),
    ensures
        c.past_deadlines(deadlines).one_nick(),
    decreases deadlines.len(),
{
    if deadlines.len() > 0 {
        lemma_deadlines_keep_one_nick(c, deadlines.drop_last());
    }
}

proof fn lemma_rest_keeps_one_nick(c: ClientView, line: LineView)
    requires
        c.one_nick(),
    ensures
        c.on_rest(line).one_nick(),
{
    reveal(ClientView::on_rest);
    reveal(ClientView::on_nick_refused);
    reveal(ClientView::folding);
    reveal(ClientView::on_authenticate);
    reveal(ClientView::finishing_sasl);
    reveal(ClientView::settling);
    reveal(ClientView::on_batch);
    if c.batches.closed_by(line) is Some {
        let batch = c.batches.closed_by(line)->0;
        let closed = ClientView { batches: c.batches.closing(line), ..c };
        reveal(ClientView::draining);
        lemma_folding_keeps_one_nick(closed, batch.messages, true);
        lemma_folding_keeps_one_nick(closed, batch.messages, false);
    }
}

proof fn lemma_receiving_keeps_one_nick(c: ClientView, line: LineView)
    requires
        c.one_nick(),
    ensures
        c.receiving(line).one_nick(),
{
    reveal(ClientView::receiving);
    reveal(ClientView::handling);
    reveal(ClientView::registering);
    reveal(ClientView::on_typing);
    reveal(ClientView::on_rtc);
    reveal(ClientView::on_monitor);
    reveal(ClientView::on_reply);
    reveal(ClientView::on_cap);
    reveal(ClientView::settling);
    let alive = c.kept_alive();
    let at = ClientView { labels: alive.labels.after(line).0, ..alive };
    lemma_supporting_keeps_one_nick(at, line.params.subrange(1, line.params.len() - 1));
    if line.param(1) is Some {
        lemma_seeing_keeps_one_nick(at, targets_in(line.param(1)->0), line.is("730"@));
    }
    lemma_rest_keeps_one_nick(at, line);
}

proof fn lemma_reading_keeps_one_nick(c: ClientView, bytes: Seq<u8>)
    requires
        c.one_nick(),
    ensures
        c.reading(bytes).one_nick(),
    decreases bytes.len(),
{
    lemma_line_end(bytes);
    let end = line_end(bytes) as int;
    if end < bytes.len() {
        let line = parsed(lossy(bytes.take(end + 1)));
        if line is Some {
            lemma_receiving_keeps_one_nick(c, line->0);
        }
        lemma_reading_keeps_one_nick(c.taking(bytes.take(end + 1)), bytes.skip(end + 1));
    }
}

/// The connection and the model know us by one nick, from the start and whatever happens: what is
/// read, asked for, or timed out, and whether the transport comes or goes.
pub proof fn law_we_have_one_nick(
    config: ConfigView,
    c: ClientView,
    bytes: Seq<u8>,
    now: Now,
    command: CommandView,
)
    requires
        c.one_nick(),
    ensures
        ClientView::fresh(config).one_nick(),
        c.feeding(bytes).one_nick(),
        c.ticking(now).one_nick(),
        c.commanding(command).one_nick(),
        c.connecting().one_nick(),
        c.disconnecting().one_nick(),
{
    reveal(ClientView::folding);
    lemma_reading_keeps_one_nick(
        ClientView { partial: Seq::empty(), ..c },
        c.partial + bytes,
    );
    let started = ClientView {
        monotonic_ms: now.monotonic_ms,
        latest_ms: if c.latest_ms < now.unix_ms {
            now.unix_ms
        } else {
            c.latest_ms
        },
        timers: still_armed(c.timers, now.monotonic_ms),
        ..c
    };
    lemma_deadlines_keep_one_nick(started, expired(c.timers, now.monotonic_ms));
}

/// When the server renames us, the connection is called by the new nick at once, as the model is.
pub proof fn law_rename_reaches_the_connection(c: ClientView, line: LineView, historical: bool)
    requires
        upper(line.command) == "NICK"@,
        c.isupport.same_name(c.model.me.nick, line.sender()),
        line.param(0) is Some,
    ensures
        c.folding(line, historical).nick == line.param(0)->0,
        c.folding(line, historical).model.me.nick == line.param(0)->0,
{
    reveal(ClientView::folding);
    reveal_strlit("PRIVMSG");
    reveal_strlit("NOTICE");
    reveal_strlit("TAGMSG");
    reveal_strlit("NICK");
    reveal_strlit("JOIN");
    reveal_strlit("PART");
    reveal_strlit("QUIT");
    reveal_strlit("KICK");
    assert("NICK"@.len() == 4 && "PRIVMSG"@.len() == 7 && "NOTICE"@.len() == 6 && "TAGMSG"@.len()
        == 6);
    assert("NICK"@[0] == 'N' && "JOIN"@[0] == 'J' && "PART"@[0] == 'P' && "QUIT"@[0] == 'Q'
        && "KICK"@[0] == 'K');
}

/// Negotiation ends, with one `CAP END`, only once every request is answered and no authentication
/// is underway or owed.
pub proof fn law_negotiation_ends_once_settled(c: ClientView)
    requires
        c.settling().phase != c.phase,
    ensures
        c.phase == Phase::Negotiating,
        c.settling().phase == Phase::Registering,
        c.caps.pending.len() == 0,
        !c.sasl.underway(),
        c.wants_sasl() ==> !c.shares_mechanism(),
        c.settling().outbox == c.outbox.push(written(LineView::plain("CAP"@, seq!["END"@]))),
        c.settling().settling() == c.settling(),
{
    reveal(ClientView::settling);
}

/// A ping is answered with its own token, and nothing else happens.
pub proof fn law_ping_is_answered(c: ClientView, line: LineView)
    requires
        line.is("PING"@),
    ensures
        c.handling(line) == c.sending(LineView::plain("PONG"@, seq![line.trailing_or_empty()])),
{
    reveal(ClientView::handling);
    reveal_strlit("PING");
    reveal_strlit("PONG");
    assert("PING"@[1] == 'I' && "PONG"@[1] == 'O');
    assert(lower("PING"@)[1] != lower("PONG"@)[1]);
}

/// A line that changes nothing is still surfaced as it came, so that a host sees what the library
/// does not know.
pub proof fn law_unknown_line_is_surfaced(c: ClientView, line: LineView, historical: bool)
    requires
        on_line(c.model, c.isupport, c.latest_ms, historical, line).changes.len() == 0,
    ensures
        c.folding(line, historical).events == c.events.push(EventView::Raw { message: line }),
        c.folding(line, historical).outbox == c.outbox,
{
    reveal(ClientView::folding);
}

/// What we say is recorded once: by the echo where the server sends one, and otherwise at once and
/// as our own.
pub proof fn law_what_we_say_is_recorded_once(c: ClientView, line: LineView)
    ensures
        c.caps.acknowledged.contains_key("echo-message"@) ==> c.saying(line).model == c.model,
        !c.caps.acknowledged.contains_key("echo-message"@) ==> c.saying(line).model == on_line(
            c.model,
            c.isupport,
            c.latest_ms,
            false,
            c.echoed(line),
        ).model,
        c.echoed(line).sender() == c.nick,
        c.one_nick() ==> c.isupport.same_name(c.model.me.nick, c.echoed(line).sender()),
{
    reveal(ClientView::folding);
}

/// Losing the connection loses nothing that happened: channels, what was said in them and what is
/// unread stay, and only who is in them is no longer known.
pub proof fn law_disconnect_keeps_what_happened(c: ClientView)
    ensures
        ({
            let after = c.disconnecting().model;
            &&& after.channels.dom() =~= c.model.channels.dom()
            &&& forall|k: Seq<char>| #[trigger]
                c.model.channels.contains_key(k) ==> after.channels[k] == (ChannelView {
                    members: Map::empty(),
                    ..c.model.channels[k]
                })
            &&& after.conversations == c.model.conversations
            &&& after.people == c.model.people
            &&& after.me == c.model.me
        }),
        c.disconnecting().phase == Phase::Disconnected,
        c.disconnecting().channel_keys == c.channel_keys,
        c.disconnecting().metadata_subscriptions == c.metadata_subscriptions,
        c.disconnecting().monitor.watching == c.monitor.watching,
{
}

/// The lines that put us back into a channel are among those for all the channels.
proof fn lemma_rejoins(c: ClientView, channels: Seq<Seq<char>>, i: int)
    requires
        0 <= i < channels.len(),
    ensures
        c.rejoins(channels).contains(c.rejoin(channels[i])[0]),
    decreases channels.len(),
{
    let before = c.rejoins(channels.drop_last());
    let last = c.rejoin(channels.last());
    if i == channels.len() - 1 {
        assert((before + last)[before.len() as int] == last[0]);
    } else {
        lemma_rejoins(c, channels.drop_last(), i);
        let join = c.rejoin(channels[i])[0];
        assert((before + last)[before.index_of(join)] == join);
    }
}

/// Once registered again, we join every channel that we were in, with its key where we know one.
pub proof fn law_every_channel_is_rejoined(c: ClientView, line: LineView, channel: Seq<char>)
    requires
        c.model.channels.dom().finite(),
        c.model.channels.contains_key(channel),
    ensures
        ({
            let name = c.model.channels[channel].name;
            let folded = c.isupport.fold(name);
            let key = if c.channel_keys.contains_key(folded) {
                Some(c.channel_keys[folded])
            } else {
                None
            };
            c.registering(line).outbox.contains(
                written(with_optional("JOIN"@, seq![name], key)),
            )
        }),
{
    reveal(ClientView::registering);
    let nick = match line.param(0) {
        Some(nick) => nick,
        None => c.nick,
    };
    let up = ClientView {
        phase: Phase::Registered,
        nick,
        model: ModelView { me: MeView { nick, ..c.model.me }, ..c.model },
        ..c
    }.telling(EventView::Registered { nick });
    let channels = in_order(c.model.channels.dom());
    lemma_has_order(c.model.channels.dom());
    assert(c.model.channels.dom().contains(channel));
    let i = channels.index_of(channel);
    lemma_rejoins(up, channels, i);
    let join = up.rejoin(channel)[0];
    let rejoins = up.rejoins(channels);
    let lines = up.resumption();
    let j = lines.len() - rejoins.len() + rejoins.index_of(join);
    assert(lines[j] == join);
    let outbox = up.sending_all(lines).outbox;
    assert(outbox[up.outbox.len() + j] == written(join));
}

/// True when someone is composing a message in a channel or a conversation.
pub open spec fn composes(m: ModelView, target: Seq<char>, who: Seq<char>) -> bool {
    if m.channels.contains_key(target) {
        m.channels[target].typing.contains(who)
    } else {
        m.conversations.contains_key(target) && m.conversations[target].typing.contains(who)
    }
}

/// Deadlines that pass make nobody start to compose, and those of an indicator end it.
proof fn lemma_indicators_end(
    c: ClientView,
    deadlines: Seq<DeadlineView>,
    target: Seq<char>,
    who: Seq<char>,
)
    ensures
        composes(c.past_deadlines(deadlines).model, target, who) ==> composes(c.model, target, who),
        deadlines.contains(DeadlineView::Typing(target, who)) ==> !composes(
            c.past_deadlines(deadlines).model,
            target,
            who,
        ),
    decreases deadlines.len(),
{
    if deadlines.len() > 0 {
        let rest = deadlines.drop_last();
        lemma_indicators_end(c, rest, target, who);
        if deadlines.contains(DeadlineView::Typing(target, who)) && deadlines.last()
            != DeadlineView::Typing(target, who) {
            let i = deadlines.index_of(DeadlineView::Typing(target, who));
            assert(rest[i] == DeadlineView::Typing(target, who));
        }
    }
}

/// A host may sleep until the instant that it is told: a tick before it moves the clock and does
/// nothing else, and a tick at it has something to do.
pub proof fn law_host_may_sleep(c: ClientView, next: Option<u64>, now: Now)
    requires
        c.wakes_at(next),
        c.timers.dom().finite(),
    ensures
        next is None || now.monotonic_ms < next->0 ==> c.ticking(now) == (ClientView {
            monotonic_ms: now.monotonic_ms,
            latest_ms: if c.latest_ms < now.unix_ms {
                now.unix_ms
            } else {
                c.latest_ms
            },
            ..c
        }),
        next is Some && next->0 <= now.monotonic_ms ==> (exists|k: DeadlineView|
            expired(c.timers, now.monotonic_ms).contains(k)) || (exists|k: Seq<char>| #[trigger]
            c.labels.pending.contains_key(k) && !in_time(
                c.labels.pending,
                now.monotonic_ms,
            ).contains_key(k)),
{
    if next is None || now.monotonic_ms < next->0 {
        lemma_none_due(c.timers, now.monotonic_ms);
        lemma_none_overdue(c.labels, now.monotonic_ms);
        let none = overdue(c.labels.pending, now.monotonic_ms);
        assert(none.map_values(timed_out()) =~= Seq::empty());
        assert(c.events + Seq::<EventView>::empty() =~= c.events);
    } else if exists|k: DeadlineView| #[trigger] c.timers.contains_key(k) && c.timers[k] == next->0 {
        let k = choose|k: DeadlineView| #[trigger]
            c.timers.contains_key(k) && c.timers[k] == next->0;
        law_fires_on_time(c.timers, k, now.monotonic_ms);
        assert(expired(c.timers, now.monotonic_ms).contains(k));
    } else {
        let k = choose|k: Seq<char>| #[trigger]
            c.labels.pending.contains_key(k) && c.labels.pending[k].deadline_ms == next->0;
        assert(c.labels.pending.contains_key(k) && !in_time(
            c.labels.pending,
            now.monotonic_ms,
        ).contains_key(k));
    }
}

/// An indicator that is never taken back goes stale by itself: once the clock has passed its time,
/// nobody is shown as composing on its account.
pub proof fn law_typing_goes_stale(c: ClientView, line: LineView, now: Now)
    requires
        c.timers.dom().finite(),
        ClientView::is_typing_line(line),
        line.tag("+typing"@) == Some("active"@),
        now.monotonic_ms >= later(c.monotonic_ms, TYPING_EXPIRY_MS),
    ensures
        ({
            let who = line.source->0.name;
            let target = if c.isupport.is_channel(line.param(0)->0) {
                line.param(0)->0
            } else {
                who
            };
            !composes(
                c.on_typing(line).ticking(now).model,
                c.isupport.fold(target),
                c.isupport.fold(who),
            )
        }),
{
    reveal(ClientView::on_typing);
    let who = line.source->0.name;
    let target = if c.isupport.is_channel(line.param(0)->0) {
        line.param(0)->0
    } else {
        who
    };
    let (target, who) = (c.isupport.fold(target), c.isupport.fold(who));
    let at = c.on_typing(line);
    let deadline = DeadlineView::Typing(target, who);
    law_fires_on_time(at.timers, deadline, now.monotonic_ms);
    let started = ClientView {
        monotonic_ms: now.monotonic_ms,
        latest_ms: if at.latest_ms < now.unix_ms {
            now.unix_ms
        } else {
            at.latest_ms
        },
        timers: still_armed(at.timers, now.monotonic_ms),
        ..at
    };
    lemma_indicators_end(started, expired(at.timers, now.monotonic_ms), target, who);
}

/// Voice signalling never reaches what was said, and neither does a typing indicator: the one
/// leaves the model alone, and the other changes only who is shown as composing.
pub proof fn law_signalling_is_no_message(c: ClientView, line: LineView, key: Seq<char>)
    requires
        ClientView::is_typing_line(line) || ClientView::is_rtc_line(line),
    ensures
        ({
            let after = c.handling(line).model;
            &&& !ClientView::is_typing_line(line) ==> after == c.model
            &&& after.channels.dom() =~= c.model.channels.dom()
            &&& after.conversations.dom() =~= c.model.conversations.dom()
            &&& c.model.channels.contains_key(key) ==> after.channels[key] == (ChannelView {
                typing: after.channels[key].typing,
                ..c.model.channels[key]
            })
            &&& c.model.conversations.contains_key(key) ==> after.conversations[key] == (
            ConversationView {
                typing: after.conversations[key].typing,
                ..c.model.conversations[key]
            })
        }),
{
    reveal(ClientView::handling);
    reveal(ClientView::on_rtc);
    reveal(ClientView::on_typing);
    reveal_strlit("TAGMSG");
    reveal_strlit("PONG");
    reveal_strlit("PING");
    reveal_strlit("CAP");
    reveal_strlit("001");
    reveal_strlit("005");
    assert(lower(line.command).len() == 6);
    assert(lower("PONG"@).len() == 4 && lower("PING"@).len() == 4 && lower("CAP"@).len() == 3);
    assert(lower("001"@).len() == 3 && lower("005"@).len() == 3);
}

} // verus!

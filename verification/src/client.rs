//! The connection engine.

use std::collections::VecDeque;
use vstd::prelude::*;
use vstd::string::*;
use vstd::utf8::encode_utf8;

use crate::batch::{Batches, ClosedBatch};
use crate::caps::Capabilities;
use crate::command::Command;
use crate::config::Config;
use crate::crypto::lossy_text;
use crate::extensions::Commands;
use crate::isupport::Features;
use crate::label::{is_first_due, overdue, Labels, PendingView, DEFAULT_TIMEOUT_MS};
use crate::model::Model;
use crate::monitor::{batched, folds, requests, split_targets, Monitor};
use crate::room::Room;
use crate::sasl::{decode_challenge, encode_response, offers, Credentials, SaslFailure, SaslState};
use crate::scram::Scram;
use crate::session::{apply, Change};
use crate::sorted::{in_order, SortedMap};
use crate::state::{
    authenticate, cap_request, changed, failure_named, line_end, monitor_request, reaction_line,
    registration, severity_named, timed_out, who_line, who_lines, wire_of, with_new, with_optional,
    written,
};
use crate::text::{
    contains_string, copy_strings, decimal_of, first_char, same, take_before, to_upper,
};
use crate::timer::{
    is_next, Deadline, Now, ReconnectBackoff, Timers, DEAD_LINK_MS, PING_KEEPALIVE_MS,
    TYPING_EXPIRY_MS,
};
use crate::voice::Signal;
use crate::wire::{or_empty, CaseFolded, Casemapping, Line, LineView, Source};

pub use crate::config::Phase;
pub use crate::event::{Event, EventView, Severity};
pub use crate::state::{ClientView, DEFAULT_MONITOR_LIMIT, MAX_INBOUND_LINE};

verus! {

/// One connection.
///
/// It opens no socket, reads no clock and renders nothing: the host pushes bytes and time in, and
/// drains bytes and events out.
pub struct Client {
    config: Config,
    phase: Phase,
    caps: Capabilities,
    nick: String,
    isupport: Features,
    model: Model,
    batches: Batches,
    monitor: Monitor,
    channel_keys: SortedMap<CaseFolded, String>,
    metadata_subscriptions: Vec<String>,
    rooms: SortedMap<CaseFolded, Room>,
    commands: Commands,
    timers: Timers,
    labels: Labels<String>,
    backoff: ReconnectBackoff,
    monotonic_ms: u64,
    latest_ms: u64,
    discarding: bool,
    dropped_lines: u64,
    sasl: SaslState,
    scram: Option<Scram>,
    nick_attempt: usize,
    partial: Vec<u8>,
    outbox: VecDeque<Vec<u8>>,
    events: VecDeque<Event>,
}

/// The bytes of a line.
pub open spec fn bytes_of() -> spec_fn(Vec<u8>) -> Seq<u8> {
    |bytes: Vec<u8>| bytes@
}

/// What an event says.
pub open spec fn event_of() -> spec_fn(Event) -> EventView {
    |event: Event| event@
}

impl View for Client {
    type V = ClientView;

    closed spec fn view(&self) -> ClientView {
        ClientView {
            config: self.config@,
            phase: self.phase,
            caps: self.caps@,
            nick: self.nick@,
            isupport: self.isupport@,
            model: self.model@,
            batches: self.batches@,
            monitor: self.monitor@,
            channel_keys: self.channel_keys@,
            metadata_subscriptions: self.metadata_subscriptions.deep_view(),
            rooms: self.rooms@,
            commands: self.commands@,
            timers: self.timers@,
            labels: self.labels@,
            backoff: self.backoff@,
            monotonic_ms: self.monotonic_ms,
            latest_ms: self.latest_ms,
            discarding: self.discarding,
            dropped_lines: self.dropped_lines,
            sasl: self.sasl,
            scram: self.scram.deep_view(),
            nick_attempt: self.nick_attempt,
            partial: self.partial@,
            outbox: self.outbox@.map_values(bytes_of()),
            events: self.events@.map_values(event_of()),
        }
    }
}

fn params1(a: &str) -> (r: Vec<String>)
    ensures
        r.deep_view() == seq![a@],
{
    let mut r: Vec<String> = Vec::new();
    r.push(a.to_owned());
    assert(r.deep_view() =~= seq![a@]);
    r
}

fn params2(a: &str, b: &str) -> (r: Vec<String>)
    ensures
        r.deep_view() == seq![a@, b@],
{
    let mut r = params1(a);
    let ghost had = r.deep_view();
    r.push(b.to_owned());
    assert(r.deep_view() =~= had.push(b@));
    assert(r.deep_view() =~= seq![a@, b@]);
    r
}

fn params3(a: &str, b: &str, c: &str) -> (r: Vec<String>)
    ensures
        r.deep_view() == seq![a@, b@, c@],
{
    let mut r = params2(a, b);
    let ghost had = r.deep_view();
    r.push(c.to_owned());
    assert(r.deep_view() =~= had.push(c@));
    assert(r.deep_view() =~= seq![a@, b@, c@]);
    r
}

fn params4(a: &str, b: &str, c: &str, d: &str) -> (r: Vec<String>)
    ensures
        r.deep_view() == seq![a@, b@, c@, d@],
{
    let mut r = params3(a, b, c);
    let ghost had = r.deep_view();
    r.push(d.to_owned());
    assert(r.deep_view() =~= had.push(d@));
    assert(r.deep_view() =~= seq![a@, b@, c@, d@]);
    r
}

fn line_with_optional(command: &str, params: Vec<String>, last: &Option<String>) -> (r: Line)
    ensures
        r@ == with_optional(command@, params.deep_view(), last.deep_view()),
{
    let mut params = params;
    if let Some(last) = last {
        let ghost had = params.deep_view();
        params.push(last.clone());
        assert(params.deep_view() =~= had.push(last@));
    }
    Line::new(command, params)
}

fn after_prefix(prefix: &str, text: &str) -> (r: String)
    ensures
        r@ == prefix@ + text@,
{
    let mut r = prefix.to_owned();
    r.append(text);
    r
}

fn reaction(tag: &str, target: &str, msgid: &str, emoji: &str) -> (r: Line)
    ensures
        r@ == reaction_line(tag@, target@, msgid@, emoji@),
{
    let mut line = Line::new("TAGMSG", params1(target));
    line.set_tag(tag, emoji);
    line.set_tag("+draft/reply", msgid);
    line
}

/// Turn a command into the line that carries it.
///
/// Nothing for one that needs the state of the connection, nor for a raw line that does not parse,
/// which must not reach the wire half-formed.
pub fn wire(command: &Command) -> (r: Option<Line>)
    ensures
        r.deep_view() == wire_of(command@),
{
    match command {
        Command::Part { channel, reason } => Some(
            line_with_optional("PART", params1(channel), reason),
        ),
        Command::SetNick { nick } => Some(Line::new("NICK", params1(nick))),
        Command::SetTopic { channel, topic } => {
            // an empty trailing parameter clears a topic; omitting it asks what the topic is
            let topic: String = match topic {
                Some(topic) => topic.clone(),
                None => String::new(),
            };
            Some(Line::new("TOPIC", params2(channel, &topic)))
        },
        Command::SetAway { message } => {
            let none: Vec<String> = Vec::new();
            assert(none.deep_view() =~= Seq::empty());
            Some(line_with_optional("AWAY", none, message))
        },
        Command::SetTyping { target, state } => {
            let mut line = Line::new("TAGMSG", params1(target));
            line.set_tag("+typing", state.as_str());
            Some(line)
        },
        Command::AddReaction { target, msgid, emoji } => Some(
            reaction("+draft/react", target, msgid, emoji),
        ),
        Command::RemoveReaction { target, msgid, emoji } => Some(
            reaction("+draft/unreact", target, msgid, emoji),
        ),
        Command::RedactMessage { target, msgid, reason } => Some(
            line_with_optional("REDACT", params2(target, msgid), reason),
        ),
        Command::MarkRead { target, timestamp } => Some(
            Line::new("MARKREAD", params2(target, &after_prefix("timestamp=", timestamp))),
        ),
        Command::FetchHistory { target, before, limit } => {
            let count = decimal_of(*limit as u64);
            Some(
                match before {
                    Some(msgid) => Line::new(
                        "CHATHISTORY",
                        params4("BEFORE", target, &after_prefix("msgid=", msgid), &count),
                    ),
                    None => Line::new("CHATHISTORY", params4("LATEST", target, "*", &count)),
                },
            )
        },
        // a SET with no value deletes the key
        Command::SetMetadata { key, value } => Some(
            line_with_optional("METADATA", params3("*", "SET", key), value),
        ),
        Command::SendVoiceSignal { channel, signal_json } => {
            let mut line = Line::new("TAGMSG", params1(channel));
            line.set_tag("+obsidianirc/rtc", signal_json);
            Some(line)
        },
        Command::Quit { reason } => {
            let none: Vec<String> = Vec::new();
            assert(none.deep_view() =~= Seq::empty());
            Some(line_with_optional("QUIT", none, reason))
        },
        Command::SendRawLine { line } => Line::parse(line),
        _ => None,
    }
}

/// Read the severity off a `standard-replies` verb.
fn severity_of(command: &str) -> (r: Option<Severity>)
    ensures
        r == severity_named(command@),
{
    let verb = to_upper(command);
    if same(&verb, "FAIL") {
        Some(Severity::Fail)
    } else if same(&verb, "WARN") {
        Some(Severity::Warn)
    } else if same(&verb, "NOTE") {
        Some(Severity::Note)
    } else {
        None
    }
}

/// Map a numeric onto why authentication failed.
fn sasl_failure(command: &str) -> (r: Option<SaslFailure>)
    ensures
        r == failure_named(command@),
{
    if same(command, "904") {
        Some(SaslFailure::Rejected)
    } else if same(command, "905") {
        Some(SaslFailure::TooLong)
    } else if same(command, "906") {
        Some(SaslFailure::Aborted)
    } else if same(command, "907") {
        Some(SaslFailure::AlreadyAuthenticated)
    } else {
        None
    }
}

impl Client {
    /// Build an engine that has not connected yet. Nothing is written until [`Client::connected`].
    pub fn new(config: Config) -> (r: Self)
        ensures
            r@ == ClientView::fresh(config@),
    {
        let mut config = config;
        let ghost given = config@;
        if config.username.as_str().is_empty() {
            config.username = config.nick.clone();
        }
        if config.realname.as_str().is_empty() {
            config.realname = config.nick.clone();
        }
        assert(config@ =~= given.filled());
        let mut model = Model::with_retention(config.retention);
        model.me_mut().nick = config.nick.clone();
        let r = Client {
            nick: config.nick.clone(),
            model,
            latest_ms: 0,
            discarding: false,
            dropped_lines: 0,
            config,
            phase: Phase::Disconnected,
            caps: Capabilities::default(),
            isupport: Features::default(),
            batches: Batches::new(),
            monitor: Monitor::new(),
            channel_keys: SortedMap::new(),
            metadata_subscriptions: Vec::new(),
            rooms: SortedMap::new(),
            commands: Commands::new(),
            timers: Timers::new(),
            labels: Labels::new(),
            backoff: ReconnectBackoff::default(),
            monotonic_ms: 0,
            sasl: SaslState::Idle,
            scram: None,
            nick_attempt: 0,
            partial: Vec::new(),
            outbox: VecDeque::new(),
            events: VecDeque::new(),
        };
        assert(r@ =~= ClientView::fresh(given));
        r
    }

    /// Queue a line to be written. Use this for anything that the engine does not model.
    pub fn send(&mut self, line: &Line)
        ensures
            final(self)@ == old(self)@.sending(line@),
    {
        let mut bytes = line.render().as_str().as_bytes_vec();
        bytes.push(13);
        bytes.push(10);
        assert(bytes@ =~= written(line@));
        self.outbox.push_back(bytes);
        assert(self@.outbox =~= old(self)@.outbox.push(written(line@)));
    }

    fn tell(&mut self, event: Event)
        ensures
            final(self)@ == old(self)@.telling(event@),
    {
        self.events.push_back(event);
        assert(self@.events =~= old(self)@.events.push(event@));
    }

    fn drop_line(&mut self)
        ensures
            final(self)@ == old(self)@.dropping_a_line(),
    {
        self.dropped_lines = self.dropped_lines.saturating_add(1);
    }

    fn arm_keepalive(&mut self)
        ensures
            final(self)@ == old(self)@.kept_alive(),
    {
        self.timers.clear(&Deadline::DeadLink);
        self.timers.set(
            Deadline::PingKeepalive,
            self.monotonic_ms.saturating_add(PING_KEEPALIVE_MS),
        );
    }

    /// Tell the engine that the transport is up. This queues the registration burst.
    ///
    /// The host calls this once the socket is open and the TLS handshake, if any, has finished. The
    /// engine has no way to know that on its own.
    pub fn connected(&mut self)
        ensures
            final(self)@ == old(self)@.connecting(),
            final(self)@.finite(),
    {
        let ghost config = self@.config;
        self.phase = Phase::Negotiating;
        self.backoff.reset();
        self.timers.clear(&Deadline::Reconnect);
        self.arm_keepalive();
        let ghost up = self@;
        self.send(&Line::new("CAP", params2("LS", "302")));
        if let Some(password) = &self.config.password {
            let line = Line::new("PASS", params1(password));
            self.send(&line);
        }
        let line = Line::new("NICK", params1(&self.config.nick));
        self.send(&line);
        let line = Line::new(
            "USER",
            params4(&self.config.username, "0", "*", &self.config.realname),
        );
        self.send(&line);
        assert(self@.outbox =~= up.sending_all(registration(config)).outbox);
        proof {
            use_type_invariant(&self.timers.deadlines);
            use_type_invariant(&self.model.channels);
            self.timers.lemma_finite();
            self.model.lemma_finite();
        }
    }

    /// Tell the engine that its transport died. The model survives, so a reconnect can resume from
    /// it.
    ///
    /// The engine decides when to try again and says so with [`Event::Reconnect`]. The host owns
    /// every socket, and this is the only thing that it has to report.
    pub fn disconnected(&mut self)
        ensures
            final(self)@ == old(self)@.disconnecting(),
            final(self)@.finite(),
    {
        self.phase = Phase::Disconnected;
        self.batches.drop_all();
        self.caps = Capabilities::default();
        self.sasl = SaslState::Idle;
        self.monitor.forget_presence();
        self.model.clear_members();
        self.timers.clear(&Deadline::PingKeepalive);
        self.timers.clear(&Deadline::DeadLink);
        assert(self@ =~= old(self)@.cut_off());
        match self.backoff.next_delay_ms() {
            Some(after_ms) => {
                self.timers.set(Deadline::Reconnect, self.monotonic_ms.saturating_add(after_ms));
                self.tell(Event::Reconnect { after_ms });
            },
            None => self.tell(Event::ReconnectGaveUp),
        }
        proof {
            use_type_invariant(&self.timers.deadlines);
            use_type_invariant(&self.model.channels);
            self.timers.lemma_finite();
            self.model.lemma_finite();
        }
    }

    /// Stop showing someone as typing once their indicator has gone stale.
    fn expire_typing(&mut self, target: &str, who: &str)
        ensures
            final(self)@ == old(self)@.typing_stale(target@, who@),
    {
        let folded_target = CaseFolded::already_folded(target);
        let folded_who = CaseFolded::already_folded(who);
        if self.model.set_typing(&folded_target, folded_who, false) {
            self.tell(
                Event::Typing { target: target.to_owned(), nick: who.to_owned(), typing: false },
            );
        }
    }

    fn pass_deadline(&mut self, deadline: &Deadline)
        ensures
            final(self)@ == old(self)@.past_deadline(deadline@),
    {
        match deadline {
            Deadline::PingKeepalive => {
                self.timers.set(
                    Deadline::DeadLink,
                    self.monotonic_ms.saturating_add(DEAD_LINK_MS),
                );
                let line = Line::new("PING", params1(&self.nick));
                self.send(&line);
            },
            Deadline::DeadLink => self.tell(Event::LinkDead),
            Deadline::Reconnect => self.tell(Event::Reconnect { after_ms: 0 }),
            Deadline::Typing(target, who) => self.expire_typing(target, who),
        }
    }

    fn expire_labels(&mut self, now_ms: u64)
        ensures
            final(self)@ == old(self)@.labels_expired(now_ms),
    {
        let ghost before = self@;
        let mut commands = self.labels.expire(now_ms);
        let ghost late = overdue(before.labels.pending, now_ms);
        let ghost told = late.map_values(timed_out());
        let ghost all = commands.deep_view();
        let ghost quiet = ClientView { labels: self@.labels, ..before };
        let n: usize = commands.len();
        assert(self@ =~= quiet);
        assert(all =~= late.map_values(|e: (Seq<char>, PendingView<Seq<char>>)| e.1.data));
        assert(n == all.len() && told.len() == late.len());
        assert(told.take(0) =~= Seq::empty());
        assert(quiet.telling_all(told.take(0)) =~= quiet);
        let mut i: usize = 0;
        while i < n
            invariant
                i <= n == commands@.len() == told.len() == late.len(),
                commands.deep_view() == late.map_values(
                    |e: (Seq<char>, PendingView<Seq<char>>)| e.1.data,
                ),
                told == late.map_values(timed_out()),
                self@ == quiet.telling_all(told.take(i as int)),
            decreases n - i,
        {
            let command = commands[i].clone();
            assert(commands.deep_view()[i as int] == command@);
            let ghost was = self@;
            self.tell(Event::CommandTimedOut { command });
            i = i + 1;
            assert(self@ =~= quiet.telling_all(told.take(i as int)));
        }
        assert(told.take(n as int) =~= told);
    }

    /// Advance the clock. Whatever has fallen due happens here.
    ///
    /// The host supplies both clocks because the engine has neither: the monotonic one drives every
    /// deadline, and the wall clock only stamps a message that the server did not stamp itself.
    pub fn tick(&mut self, now: Now)
        ensures
            final(self)@ == old(self)@.ticking(now),
            final(self)@.finite(),
    {
        let ghost before = self@;
        self.monotonic_ms = now.monotonic_ms;
        if self.latest_ms < now.unix_ms {
            self.latest_ms = now.unix_ms;
        }
        let due = self.timers.expire(now);
        let ghost start = self@;
        let ghost all = due.deep_view();
        let mut i: usize = 0;
        assert(all.take(0) =~= Seq::empty());
        while i < due.len()
            invariant
                i <= due@.len() == all.len(),
                all == due.deep_view(),
                self@ == start.past_deadlines(all.take(i as int)),
            decreases due@.len() - i,
        {
            assert(all.take(i + 1).drop_last() =~= all.take(i as int));
            self.pass_deadline(&due[i]);
            i = i + 1;
        }
        assert(all.take(all.len() as int) =~= all);
        self.expire_labels(now.monotonic_ms);
        proof {
            use_type_invariant(&self.timers.deadlines);
            use_type_invariant(&self.model.channels);
            self.timers.lemma_finite();
            self.model.lemma_finite();
        }
    }

    /// When [`Client::tick`] next has something to do, as a monotonic instant.
    ///
    /// A host can sleep until exactly then rather than waking on a fixed interval.
    pub fn poll_timeout(&self) -> (r: Option<u64>)
        ensures
            self@.wakes_at(r),
            self@.finite(),
    {
        proof {
            use_type_invariant(&self.timers.deadlines);
            use_type_invariant(&self.model.channels);
            self.timers.lemma_finite();
            self.model.lemma_finite();
        }
        let timer = self.timers.next();
        let label = self.labels.next();
        assert(is_next(self@.timers, timer));
        assert(is_first_due(self@.labels.pending, label));
        match (timer, label) {
            (Some(at), Some(due)) => if due < at {
                Some(due)
            } else {
                Some(at)
            },
            (Some(at), None) => Some(at),
            (None, due) => due,
        }
    }

    /// True when the next command can have a label, or needs none. Labels are counted, and run out
    /// after as many as can be counted.
    pub fn has_labels_left(&self) -> (r: bool)
        ensures
            r == self@.has_labels_left(),
    {
        !self.caps.has("labeled-response") || self.labels.has_more()
    }

    /// Send a command and correlate whatever the server sends back with it.
    ///
    /// Returns the label where `labeled-response` is in force. Without that capability the command
    /// still goes out, unlabelled, because a server that does not support it would only be confused
    /// by the tag.
    pub fn send_labeled(&mut self, line: &Line) -> (r: Option<String>)
        requires
            old(self)@.has_labels_left(),
        ensures
            final(self)@ == old(self)@.sending_labeled(line@),
            r.deep_view() == old(self)@.next_label(),
    {
        if !self.caps.has("labeled-response") {
            self.send(line);
            return None;
        }
        let label = self.labels.generate();
        let mut tagged = line.clone();
        tagged.set_tag("label", &label);
        self.labels.register(
            label.clone(),
            self.monotonic_ms.saturating_add(DEFAULT_TIMEOUT_MS),
            line.command.clone(),
        );
        self.send(&tagged);
        Some(label)
    }

    /// Ask who is in a channel, in the richest form that the server supports.
    fn request_who(&mut self, channel: &str)
        ensures
            final(self)@ == old(self)@.sending(who_line(old(self)@.isupport, channel@)),
    {
        let params = if self.isupport.has("WHOX") {
            params2(channel, "%tcuhnfar,332")
        } else {
            params1(channel)
        };
        self.send(&Line::new("WHO", params));
    }

    fn request_whos(&mut self, changes: &Vec<Change>)
        ensures
            final(self)@ == old(self)@.sending_all(
                who_lines(old(self)@.isupport, changes.deep_view()),
            ),
    {
        let ghost start = self@;
        let ghost all = changes.deep_view();
        let mut i: usize = 0;
        assert(all.take(0) =~= Seq::empty());
        assert(start.sending_all(who_lines(start.isupport, all.take(0))) =~= start);
        while i < changes.len()
            invariant
                i <= changes@.len() == all.len(),
                all == changes.deep_view(),
                self@ == start.sending_all(who_lines(start.isupport, all.take(i as int))),
            decreases changes@.len() - i,
        {
            let ghost some = who_lines(start.isupport, all.take(i as int));
            assert(all.take(i + 1).drop_last() =~= all.take(i as int));
            assert(all.take(i + 1).last() == changes@[i as int]@);
            if let Change::Joined { channel } = &changes[i] {
                self.request_who(channel);
                assert(self@.outbox =~= start.sending_all(
                    some.push(who_line(start.isupport, channel@)),
                ).outbox);
            }
            i = i + 1;
        }
        assert(all.take(all.len() as int) =~= all);
    }

    fn tell_changes(&mut self, changes: Vec<Change>)
        ensures
            final(self)@ == old(self)@.telling_all(changes.deep_view().map_values(changed())),
    {
        let ghost start = self@;
        let ghost all = changes.deep_view();
        let ghost given = changes@;
        let ghost told = all.map_values(changed());
        let mut changes = changes;
        let n: usize = changes.len();
        assert(start.telling_all(told.take(0)) =~= start);
        assert(given.skip(0) =~= given);
        while changes.len() > 0
            invariant
                n == given.len() == told.len(),
                changes@.len() <= n,
                changes@ == given.skip(n - changes@.len()),
                forall|i: int| 0 <= i < n ==> told[i] == (EventView::Changed {
                    change: (#[trigger] given[i])@,
                }),
                self@ == start.telling_all(told.take(n - changes@.len())),
            decreases changes@.len(),
        {
            let ghost i = n - changes@.len();
            let change = changes.remove(0);
            assert(change == given[i]);
            self.tell(Event::Changed { change });
            assert(changes@ =~= given.skip(i + 1));
            assert(self@ =~= start.telling_all(told.take(i + 1)));
        }
        assert(told.take(n as int) =~= told);
    }

    /// Fold one line into the model and surface whatever it changed.
    fn fold(&mut self, line: &Line, historical: bool)
        ensures
            final(self)@ == old(self)@.folding(line@, historical),
    {
        proof {
            reveal(ClientView::folding);
        }
        let changes = apply(
            &mut self.model,
            &self.isupport,
            &mut self.latest_ms,
            historical,
            line,
        );
        self.nick = self.model.me().nick.clone();
        if changes.len() == 0 {
            self.tell(Event::Raw { message: line.clone() });
            return;
        }
        self.request_whos(&changes);
        self.tell_changes(changes);
    }

    /// Send something that lands in a conversation, recording it ourselves if no echo is coming.
    fn say(&mut self, line: &Line)
        requires
            old(self)@.has_labels_left(),
        ensures
            final(self)@ == old(self)@.saying(line@),
    {
        let ghost before = self@;
        self.send_labeled(line);
        if self.caps.has("echo-message") {
            return;
        }
        let mut echo = line.clone();
        echo.source = Some(Source { name: self.nick.clone(), user: None, host: None });
        assert(echo@ =~= before.echoed(line@));
        self.fold(&echo, false);
    }

    fn monitor_limit(&self) -> (r: usize)
        ensures
            r == self@.monitor_limit(),
    {
        match self.isupport.number("MONITOR") {
            Some(n) => n as usize,
            None => DEFAULT_MONITOR_LIMIT as usize,
        }
    }

    fn send_monitor(&mut self, verb: &str, targets: &Vec<String>)
        ensures
            final(self)@ == old(self)@.sending_all(
                requests(targets.deep_view(), old(self)@.monitor_limit()).map_values(
                    monitor_request(verb@),
                ),
            ),
    {
        let limit: usize = self.monitor_limit();
        let chunks = batched(targets, limit);
        let ghost start = self@;
        let ghost lines = chunks.deep_view().map_values(monitor_request(verb@));
        let mut i: usize = 0;
        assert(start.sending_all(lines.take(0)) =~= start);
        while i < chunks.len()
            invariant
                i <= chunks@.len() == lines.len(),
                lines == chunks.deep_view().map_values(monitor_request(verb@)),
                self@ == start.sending_all(lines.take(i as int)),
            decreases chunks@.len() - i,
        {
            let line = Line::new("MONITOR", params2(verb, &chunks[i]));
            assert(line@ == lines[i as int]);
            self.send(&line);
            i = i + 1;
            assert(self@ =~= start.sending_all(lines.take(i as int)));
        }
        assert(lines.take(lines.len() as int) =~= lines);
    }

    /// Start or stop watching a set of nicks, in requests that the server accepts whole.
    fn set_watching(&mut self, nicks: &Vec<String>, watching: bool)
        ensures
            final(self)@ == old(self)@.setting_watch(nicks.deep_view(), watching),
    {
        let ghost f = self@.isupport;
        let ghost all = nicks.deep_view().map_values(|nick: Seq<char>| f.fold(nick));
        let mut folded: Vec<CaseFolded> = Vec::new();
        let mut i: usize = 0;
        while i < nicks.len()
            invariant
                i <= nicks@.len() == all.len(),
                f == self@.isupport,
                all == nicks.deep_view().map_values(|nick: Seq<char>| f.fold(nick)),
                folds(folded@) == all.take(i as int),
            decreases nicks@.len() - i,
        {
            let one = self.isupport.fold(&nicks[i]);
            assert(one@ == all[i as int]);
            let ghost had = folded@;
            folded.push(one);
            assert(folds(folded@) =~= folds(had).push(one@));
            i = i + 1;
            assert(folds(folded@) =~= all.take(i as int));
        }
        assert(folds(folded@) =~= all);
        let ghost before = self@;
        if watching {
            self.monitor.watch(folded);
            self.send_monitor("+", nicks);
        } else {
            self.monitor.unwatch(&folded);
            self.send_monitor("-", nicks);
        }
    }

    fn subscribe(&mut self, keys: &Vec<String>)
        ensures
            final(self)@ == (ClientView {
                metadata_subscriptions: with_new(
                    old(self)@.metadata_subscriptions,
                    keys.deep_view(),
                ),
                ..old(self)@
            }),
    {
        let ghost start = self@;
        let ghost all = keys.deep_view();
        let mut i: usize = 0;
        assert(all.take(0) =~= Seq::empty());
        while i < keys.len()
            invariant
                i <= keys@.len() == all.len(),
                all == keys.deep_view(),
                self@ == (ClientView {
                    metadata_subscriptions: with_new(
                        start.metadata_subscriptions,
                        all.take(i as int),
                    ),
                    ..start
                }),
            decreases keys@.len() - i,
        {
            assert(all.take(i + 1).drop_last() =~= all.take(i as int));
            if !contains_string(&self.metadata_subscriptions, &keys[i]) {
                let ghost had = self.metadata_subscriptions.deep_view();
                self.metadata_subscriptions.push(keys[i].clone());
                assert(self.metadata_subscriptions.deep_view() =~= had.push(all[i as int]));
            }
            i = i + 1;
        }
        assert(all.take(all.len() as int) =~= all);
    }

    fn act(&mut self, target: &str, text: &str)
        requires
            old(self)@.has_labels_left(),
        ensures
            final(self)@ == old(self)@.saying(
                LineView::plain("PRIVMSG"@, seq![target@, "\u{1}ACTION "@ + text@ + "\u{1}"@]),
            ),
    {
        let mut body = after_prefix("\u{1}ACTION ", text);
        body.append("\u{1}");
        self.say(&Line::new("PRIVMSG", params2(target, &body)));
    }

    fn join(&mut self, channel: &str, key: &Option<String>)
        requires
            old(self)@.has_labels_left(),
        ensures
            final(self)@ == old(self)@.joining(channel@, key.deep_view()),
    {
        let folded = self.isupport.fold(channel);
        match key {
            Some(key) => {
                self.channel_keys.insert(folded, key.clone());
            },
            None => {
                self.channel_keys.remove(&folded);
            },
        }
        let line = line_with_optional("JOIN", params1(channel), key);
        self.send_labeled(&line);
    }

    fn subscribe_metadata(&mut self, keys: &Vec<String>)
        requires
            old(self)@.has_labels_left(),
        ensures
            final(self)@ == old(self)@.subscribing(keys.deep_view()),
    {
        self.subscribe(keys);
        let line = subscription(keys);
        self.send_labeled(&line);
    }

    /// Do something on this connection.
    ///
    /// Anything that the server echoes back to us is left for that echo to record, so that a
    /// message never lands twice. Without `echo-message` there is no echo coming, so we record it
    /// ourselves from the same line that we sent.
    #[verifier::rlimit(60)]
    #[verifier::spinoff_prover]
    pub fn command(&mut self, command: Command)
        requires
            old(self)@.has_labels_left(),
        ensures
            final(self)@ == old(self)@.commanding(command@),
            final(self)@.finite(),
    {
        match &command {
            Command::SendMessage { target, text } => self.say(
                &Line::new("PRIVMSG", params2(target, text)),
            ),
            Command::SendNotice { target, text } => self.say(
                &Line::new("NOTICE", params2(target, text)),
            ),
            Command::SendAction { target, text } => self.act(target, text),
            Command::Join { channel, key } => self.join(channel, key),
            Command::SubscribeMetadata { keys } => self.subscribe_metadata(keys),
            Command::WatchNicks { nicks } => self.set_watching(nicks, true),
            Command::UnwatchNicks { nicks } => self.set_watching(nicks, false),
            _ => {
                if let Some(line) = wire(&command) {
                    self.send_labeled(&line);
                }
            },
        }
        proof {
            use_type_invariant(&self.timers.deadlines);
            use_type_invariant(&self.model.channels);
            self.timers.lemma_finite();
            self.model.lemma_finite();
        }
    }
}

/// The line that subscribes to metadata keys.
fn subscription(keys: &Vec<String>) -> (r: Line)
    ensures
        r@ == LineView::plain("METADATA"@, seq!["*"@, "SUB"@] + keys.deep_view()),
{
    let mut params = params2("*", "SUB");
    let ghost had = params.deep_view();
    let mut rest = copy_strings(keys, 0, keys.len());
    assert(rest.deep_view() =~= keys.deep_view());
    let ghost more = rest@;
    params.append(&mut rest);
    assert(params.deep_view() =~= had + keys.deep_view());
    Line::new("METADATA", params)
}

/// The newest network id that a channel's log ends with.
fn newest_msgid(channel: &crate::model::Channel) -> (r: Option<String>)
    ensures
        r.deep_view() == (if channel@.log.in_time().len() > 0 {
            channel@.log.in_time().last().msgid
        } else {
            None
        }),
{
    match channel.log.last() {
        Some(message) => match &message.msgid {
            Some(msgid) => Some(msgid.clone()),
            None => None,
        },
        None => None,
    }
}

impl Client {
    fn rejoin(&mut self, name: &str, newest: &Option<String>, Ghost(k): Ghost<Seq<char>>)
        requires
            old(self)@.model.channels[k].name == name@,
            newest.deep_view() == (if old(self)@.model.channels[k].log.in_time().len() > 0 {
                old(self)@.model.channels[k].log.in_time().last().msgid
            } else {
                None
            }),
        ensures
            final(self)@ == old(self)@.sending_all(old(self)@.rejoin(k)),
    {
        let ghost start = self@;
        let folded = self.isupport.fold(name);
        let key: Option<String> = match self.channel_keys.get(&folded) {
            Some(key) => Some(key.clone()),
            None => None,
        };
        let join = line_with_optional("JOIN", params1(name), &key);
        self.send(&join);
        assert(self@ =~= start.sending_all(seq![join@]));
        if self.caps.has("draft/chathistory") {
            if let Some(msgid) = newest {
                let line = Line::new(
                    "CHATHISTORY",
                    params4("AFTER", name, &after_prefix("msgid=", msgid), "100"),
                );
                self.send(&line);
                assert(self@ =~= start.sending_all(seq![join@, line@]));
                assert(start.rejoin(k) =~= seq![join@, line@]);
                return;
            }
        }
        assert(start.rejoin(k) =~= seq![join@]);
    }

    /// Put the connection back where it was.
    ///
    /// The model outlived the link, so the channels that we were in are still here and we rejoin
    /// every one. On a first connection there are none and this does nothing.
    fn resume(&mut self)
        ensures
            final(self)@ == old(self)@.sending_all(old(self)@.resumption()),
    {
        let ghost start = self@;
        let mut watched: Vec<String> = Vec::new();
        let nicks = self.monitor.watched();
        let ghost who = in_order(start.monitor.watching);
        let mut i: usize = 0;
        assert(watched.deep_view() =~= who.take(0));
        while i < nicks.len()
            invariant
                i <= nicks@.len() == who.len(),
                nicks@.map_values(|nick: &CaseFolded| nick@) == who,
                watched.deep_view() == who.take(i as int),
            decreases nicks@.len() - i,
        {
            let ghost had = watched.deep_view();
            let nick = nicks[i].as_str().to_owned();
            assert(nicks@.map_values(|nick: &CaseFolded| nick@)[i as int] == nick@);
            watched.push(nick);
            assert(watched.deep_view() =~= had.push(nick@));
            i = i + 1;
            assert(watched.deep_view() =~= who.take(i as int));
        }
        assert(who.take(who.len() as int) =~= who);
        let ghost first = requests(who, start.monitor_limit()).map_values(monitor_request("+"@));
        self.send_monitor("+", &watched);
        let ghost metadata: Seq<LineView> = if start.metadata_subscriptions.len() == 0 {
            Seq::empty()
        } else {
            seq![
                LineView::plain("METADATA"@, seq!["*"@, "SUB"@] + start.metadata_subscriptions),
            ]
        };
        if self.metadata_subscriptions.len() > 0 {
            let line = subscription(&self.metadata_subscriptions);
            self.send(&line);
        }
        assert(self@ =~= start.sending_all(first + metadata));
        let n: usize = self.model.channel_count();
        let ghost order = in_order(start.model.channels.dom());
        let mut i: usize = 0;
        assert(order.take(0) =~= Seq::empty());
        assert(first + metadata + start.rejoins(order.take(0)) =~= first + metadata);
        while i < n
            invariant
                i <= n == order.len(),
                n == start.model.channels.len(),
                order == in_order(start.model.channels.dom()),
                self@ == start.sending_all(
                    first + metadata + start.rejoins(order.take(i as int)),
                ),
            decreases n - i,
        {
            let (name, newest) = {
                let channels = self.model.channels();
                let ghost views = channels.deep_view();
                assert(views.len() == order.len());
                assert(channels@.len() == views.len());
                assert(views[i as int].1 == start.model.channels[order[i as int]]);
                assert(channels@[i as int].1@ == views[i as int].1);
                let channel = channels[i].1;
                (channel.name.clone(), newest_msgid(channel))
            };
            let ghost k = order[i as int];
            let ghost was = self@;
            self.rejoin(&name, &newest, Ghost(k));
            proof {
                assert(order.take(i + 1).drop_last() =~= order.take(i as int));
                assert(was.rejoin(k) =~= start.rejoin(k));
                let done = first + metadata + start.rejoins(order.take(i as int));
                assert(first + metadata + start.rejoins(order.take(i + 1)) =~= done
                    + start.rejoin(k));
                assert(self@ =~= start.sending_all(done + start.rejoin(k)));
            }
            i = i + 1;
        }
        assert(order.take(n as int) =~= order);
    }

    fn register(&mut self, line: &Line)
        ensures
            final(self)@ == old(self)@.registering(line@),
    {
        proof {
            reveal(ClientView::registering);
        }
        self.phase = Phase::Registered;
        if let Some(nick) = line.param(0) {
            self.nick = nick.to_owned();
        }
        self.model.me_mut().nick = self.nick.clone();
        self.tell(Event::Registered { nick: self.nick.clone() });
        self.resume();
    }

    fn handle_isupport(&mut self, line: &Line)
        ensures
            final(self)@ == (if line@.params.len() > 2 {
                old(self)@.supporting_all(line@.params.subrange(1, line@.params.len() - 1))
            } else {
                old(self)@
            }),
    {
        // params are `<nick> <token>... :are supported by this server`, so the first and last are
        // not tokens
        if line.params.len() <= 2 {
            return;
        }
        let n: usize = line.params.len();
        let ghost tokens = line@.params.subrange(1, n - 1);
        let ghost start = self@;
        let mut i: usize = 1;
        assert(tokens.take(0) =~= Seq::empty());
        while i < n - 1
            invariant
                1 <= i <= n - 1,
                n == line.params@.len(),
                tokens == line@.params.subrange(1, n - 1),
                self@ == start.supporting_all(tokens.take(i - 1)),
            decreases n - i,
        {
            assert(tokens.take(i as int).drop_last() =~= tokens.take(i - 1));
            assert(tokens[i - 1] == line.params@[i as int]@);
            let applied = self.isupport.apply(&line.params[i]);
            self.tell(Event::Isupport { token: applied.name, value: applied.value });
            i = i + 1;
        }
        assert(tokens.take(n - 2) =~= tokens);
    }

    /// Apply a `+typing` tag, if the line carries one.
    ///
    /// A typing indicator is not a message and must not appear as one. It also expires on its own,
    /// because the `done` that would clear it can be lost.
    fn handle_typing(&mut self, line: &Line) -> (r: bool)
        requires
            line@.is("TAGMSG"@),
        ensures
            r == ClientView::is_typing_line(line@),
            final(self)@ == (if r {
                old(self)@.on_typing(line@)
            } else {
                old(self)@
            }),
    {
        proof {
            reveal(ClientView::on_typing);
        }
        let state = match line.tag("+typing") {
            Some(state) => state,
            None => return false,
        };
        let (to, who) = match (line.param(0), &line.source) {
            (Some(to), Some(source)) => (to, source.name.clone()),
            _ => return false,
        };
        let target = if self.isupport.is_channel(to) {
            to.to_owned()
        } else {
            who.clone()
        };
        let folded_target = self.isupport.fold(&target);
        let folded_who = self.isupport.fold(&who);
        let typing = same(state, "active");
        let deadline = Deadline::Typing(
            folded_target.as_str().to_owned(),
            folded_who.as_str().to_owned(),
        );
        if typing {
            self.timers.set(deadline, self.monotonic_ms.saturating_add(TYPING_EXPIRY_MS));
        } else {
            self.timers.clear(&deadline);
        }
        if self.model.set_typing(&folded_target, folded_who, typing) {
            self.tell(Event::Typing { target, nick: who, typing });
        }
        true
    }

    /// Apply a voice signalling frame, if the line carries one.
    ///
    /// Signalling rides on a TAGMSG to the channel and is never a message, so it is consumed here
    /// rather than falling through to the conversation.
    fn handle_rtc(&mut self, line: &Line) -> (r: bool)
        requires
            line@.is("TAGMSG"@),
        ensures
            r == ClientView::is_rtc_line(line@),
            final(self)@ == (if r {
                old(self)@.on_rtc(line@)
            } else {
                old(self)@
            }),
    {
        proof {
            reveal(ClientView::on_rtc);
        }
        let payload = match line.tag("+obsidianirc/rtc") {
            Some(payload) => payload,
            None => return false,
        };
        let channel = match line.param(0) {
            Some(channel) => channel,
            None => return false,
        };
        let signal = match Signal::from_json(payload) {
            Some(signal) => signal,
            None => {
                self.drop_line();
                return true;
            },
        };
        let folded = self.isupport.fold(channel);
        let casemapping = self.isupport.casemapping();
        let room = self.rooms.get_or_insert(folded, Room::new(channel));
        room.apply(&self.nick, &signal, casemapping);
        self.tell(Event::Voice { channel: channel.to_owned(), signal });
        true
    }

    /// Apply `730` (online) and `731` (offline), each carrying a comma-separated target list.
    fn handle_monitor(&mut self, line: &Line)
        ensures
            final(self)@ == old(self)@.on_monitor(line@),
    {
        proof {
            reveal(ClientView::on_monitor);
        }
        let online = line.is("730");
        let list = match line.param(1) {
            Some(list) => list,
            None => return,
        };
        let targets = split_targets(list);
        let ghost start = self@;
        let ghost all = targets.deep_view();
        let mut i: usize = 0;
        assert(all.take(0) =~= Seq::empty());
        while i < targets.len()
            invariant
                i <= targets@.len() == all.len(),
                all == targets.deep_view(),
                self@ == start.seeing_all(all.take(i as int), online),
            decreases targets@.len() - i,
        {
            assert(all.take(i + 1).drop_last() =~= all.take(i as int));
            let nick = take_before(&targets[i], '!');
            let folded = self.isupport.fold(&nick);
            if online {
                self.monitor.mark_online(folded);
            } else {
                self.monitor.mark_offline(&folded);
            }
            self.tell(Event::Presence { nick, online });
            i = i + 1;
        }
        assert(all.take(all.len() as int) =~= all);
    }

    /// Surface a `FAIL`, `WARN` or `NOTE`.
    ///
    /// The shape is `<command> <code> [context...] :<description>`. False when the line does not
    /// have it, so that the caller still surfaces it.
    fn handle_standard_reply(&mut self, severity: Severity, line: &Line) -> (r: bool)
        ensures
            r == (line@.param(1) is Some),
            final(self)@ == (if r {
                old(self)@.on_reply(severity, line@)
            } else {
                old(self)@
            }),
    {
        proof {
            reveal(ClientView::on_reply);
        }
        let code = match line.param(1) {
            Some(code) => code.to_owned(),
            None => return false,
        };
        let command = or_empty(line.param(0));
        let text = or_empty(line.trailing());
        let n: usize = line.params.len();
        let context = if n > 3 {
            copy_strings(&line.params, 2, n - 1)
        } else {
            let none: Vec<String> = Vec::new();
            assert(none.deep_view() =~= Seq::empty());
            none
        };
        self.tell(Event::Reply { severity, command, code, context, text });
        true
    }

    fn finish_negotiation_if_settled(&mut self)
        ensures
            final(self)@ == old(self)@.settling(),
    {
        proof {
            reveal(ClientView::settling);
        }
        if self.phase != Phase::Negotiating || !self.caps.settled() {
            return;
        }
        let ghost before = self@;
        if self.start_sasl_if_wanted() || self.sasl.in_flight() {
            return;
        }
        self.phase = Phase::Registering;
        self.send(&Line::new("CAP", params1("END")));
    }

    /// Open the exchange, if there is one to open. True when we are now waiting on the server.
    fn start_sasl_if_wanted(&mut self) -> (r: bool)
        ensures
            r == (old(self)@.wants_sasl() && old(self)@.shares_mechanism()),
            final(self)@ == (if !old(self)@.wants_sasl() {
                old(self)@
            } else if old(self)@.shares_mechanism() {
                (ClientView { sasl: SaslState::Offered, ..old(self)@ }).sending(
                    LineView::plain(
                        "AUTHENTICATE"@,
                        seq![old(self)@.config.sasl->0.mechanism()],
                    ),
                )
            } else {
                (ClientView { sasl: SaslState::Settled, ..old(self)@ }).telling(
                    EventView::SaslFailed { reason: SaslFailure::NoSharedMechanism },
                )
            }),
    {
        if self.sasl != SaslState::Idle || !self.caps.has("sasl") {
            return false;
        }
        let mechanism = match &self.config.sasl {
            Some(credentials) => credentials.mechanism(),
            None => return false,
        };
        if !offers(self.caps.value("sasl"), mechanism) {
            self.sasl = SaslState::Settled;
            self.tell(Event::SaslFailed { reason: SaslFailure::NoSharedMechanism });
            return false;
        }
        self.sasl = SaslState::Offered;
        self.send(&Line::new("AUTHENTICATE", params1(mechanism)));
        true
    }

    fn request_wanted(&mut self)
        ensures
            final(self)@ == old(self)@.requesting(),
    {
        let wanted = self.caps.to_request();
        if wanted.len() == 0 {
            self.finish_negotiation_if_settled();
            return;
        }
        self.caps.requested(&wanted);
        // one REQ per line, and the server answers each atomically: all of a REQ is acked or none
        // of it is, so a rejected capability never takes the rest of the line down with it
        let ghost start = self@;
        let ghost lines = wanted.deep_view().map_values(cap_request());
        let mut i: usize = 0;
        assert(start.sending_all(lines.take(0)) =~= start);
        while i < wanted.len()
            invariant
                i <= wanted@.len() == lines.len(),
                lines == wanted.deep_view().map_values(cap_request()),
                self@ == start.sending_all(lines.take(i as int)),
            decreases wanted@.len() - i,
        {
            let line = Line::new("CAP", params2("REQ", &wanted[i]));
            assert(line@ == lines[i as int]);
            self.send(&line);
            i = i + 1;
            assert(self@ =~= start.sending_all(lines.take(i as int)));
        }
        assert(lines.take(lines.len() as int) =~= lines);
    }

    fn handle_cap(&mut self, line: &Line)
        ensures
            final(self)@ == old(self)@.on_cap(line@),
    {
        proof {
            reveal(ClientView::on_cap);
        }
        // CAP replies are `CAP <target> <subcommand> [*] :<list>`, where the `*` marks a
        // continuation and the list is the last parameter either way
        let verb = match line.param(1) {
            Some(subcommand) => to_upper(subcommand),
            None => return,
        };
        let list = or_empty(line.trailing());
        let more_to_come = match line.param(2) {
            Some(mark) => same(mark, "*"),
            None => false,
        };
        if same(&verb, "LS") {
            self.caps.advertise(&list);
            if !more_to_come {
                self.request_wanted();
            }
        } else if same(&verb, "NEW") {
            self.caps.advertise(&list);
            self.request_wanted();
        } else if same(&verb, "DEL") {
            self.caps.withdraw(&list);
        } else if same(&verb, "ACK") {
            let names = self.caps.acknowledge(&list);
            if names.len() > 0 {
                self.tell(Event::CapAcknowledged { names });
            }
            self.finish_negotiation_if_settled();
        } else if same(&verb, "NAK") {
            self.caps.reject(&list);
            self.finish_negotiation_if_settled();
        }
    }

    /// End the exchange either way and release the `CAP END` that was waiting on it.
    fn finish_sasl(&mut self, failure: Option<SaslFailure>)
        ensures
            final(self)@ == old(self)@.finishing_sasl(failure),
    {
        proof {
            reveal(ClientView::finishing_sasl);
        }
        if self.sasl == SaslState::Settled {
            return;
        }
        self.sasl = SaslState::Settled;
        if let Some(reason) = failure {
            self.tell(Event::SaslFailed { reason });
        }
        self.finish_negotiation_if_settled();
    }

    fn send_sasl(&mut self, payload: &Vec<u8>)
        ensures
            final(self)@ == old(self)@.sending_sasl(payload@),
    {
        let parts = encode_response(payload);
        let ghost start = self@;
        let ghost lines = parts.deep_view().map_values(authenticate());
        let mut i: usize = 0;
        assert(start.sending_all(lines.take(0)) =~= start);
        while i < parts.len()
            invariant
                i <= parts@.len() == lines.len(),
                lines == parts.deep_view().map_values(authenticate()),
                self@ == start.sending_all(lines.take(i as int)),
            decreases parts@.len() - i,
        {
            let line = Line::new("AUTHENTICATE", params1(&parts[i]));
            assert(line@ == lines[i as int]);
            self.send(&line);
            i = i + 1;
            assert(self@ =~= start.sending_all(lines.take(i as int)));
        }
        assert(lines.take(lines.len() as int) =~= lines);
    }

    /// Answer the server's invitation with whatever the mechanism opens with.
    fn begin_sasl_response(&mut self)
        ensures
            final(self)@ == old(self)@.opening_sasl(),
    {
        let credentials = match &self.config.sasl {
            Some(credentials) => credentials.copy(),
            None => return,
        };
        if let Credentials::Scram { username, password, nonce } = &credentials {
            let scram = Scram::new(username, password, nonce);
            let first = scram.client_first();
            self.scram = Some(scram);
            self.sasl = SaslState::ScramChallenged;
            self.send_sasl(&first);
            return;
        }
        self.sasl = SaslState::Responded;
        self.send_sasl(&credentials.response());
    }

    /// Prove that we know the password, over the salt and nonce that the server just sent.
    fn answer_scram_challenge(&mut self, bytes: &Vec<u8>)
        ensures
            final(self)@ == old(self)@.answering_scram(bytes@),
    {
        let mut held: Option<Scram> = None;
        core::mem::swap(&mut held, &mut self.scram);
        match held {
            None => self.finish_sasl(Some(SaslFailure::Aborted)),
            Some(scram) => {
                let mut scram = scram;
                let answer = scram.client_final(bytes);
                self.scram = Some(scram);
                match answer {
                    Ok(response) => {
                        self.sasl = SaslState::ScramProved;
                        self.send_sasl(&response);
                    },
                    Err(_) => self.finish_sasl(Some(SaslFailure::Rejected)),
                }
            },
        }
    }

    /// Check that the server knows the password too.
    ///
    /// Skipping this is how a server that never knew it convinces us that it did, so a failure
    /// here aborts rather than continuing.
    fn verify_scram_server(&mut self, bytes: &Vec<u8>)
        ensures
            final(self)@ == old(self)@.verifying_scram(bytes@),
    {
        let mut held: Option<Scram> = None;
        core::mem::swap(&mut held, &mut self.scram);
        match held {
            None => self.finish_sasl(Some(SaslFailure::Aborted)),
            Some(scram) => {
                if scram.verify(bytes).is_err() {
                    self.finish_sasl(Some(SaslFailure::ServerNotVerified));
                    return;
                }
                self.sasl = SaslState::Responded;
                // an empty response closes the exchange and lets the server send its verdict
                self.send(&Line::new("AUTHENTICATE", params1("+")));
            },
        }
    }

    /// Go on with the exchange, over the bytes of the server's challenge. Nothing stands for a
    /// challenge that could not be decoded.
    pub fn handle_challenge(&mut self, bytes: Option<Vec<u8>>)
        ensures
            final(self)@ == old(self)@.challenged(
                match bytes {
                    Some(bytes) => Some(bytes@),
                    None => None,
                },
            ),
    {
        let bytes = match bytes {
            Some(bytes) => bytes,
            None => {
                self.finish_sasl(Some(SaslFailure::Aborted));
                return;
            },
        };
        match self.sasl {
            SaslState::Offered => self.begin_sasl_response(),
            SaslState::ScramChallenged => self.answer_scram_challenge(&bytes),
            SaslState::ScramProved => self.verify_scram_server(&bytes),
            _ => {},
        }
    }

    fn handle_authenticate(&mut self, line: &Line)
        ensures
            final(self)@ == old(self)@.on_authenticate(line@),
    {
        proof {
            reveal(ClientView::on_authenticate);
        }
        let payload = match line.param(0) {
            Some(payload) => payload,
            None => "+",
        };
        let bytes = decode_challenge(payload);
        assert(bytes is Some ==> bytes->0.deep_view() =~= bytes->0@);
        self.handle_challenge(bytes);
    }

    /// Walk the fallback nicks, then append underscores. Only during registration: after `001` the
    /// host asked for the rename and gets to decide what to do about it.
    fn handle_nick_refused(&mut self, line: &Line)
        ensures
            final(self)@ == old(self)@.on_nick_refused(line@),
    {
        proof {
            reveal(ClientView::on_nick_refused);
        }
        if self.phase == Phase::Registered {
            self.tell(Event::Raw { message: line.clone() });
            return;
        }
        let refused = match line.param(1) {
            Some(refused) => refused.to_owned(),
            None => self.nick.clone(),
        };
        let trying = if self.nick_attempt < self.config.alt_nicks.len() {
            self.config.alt_nicks[self.nick_attempt].clone()
        } else {
            let mut longer = self.nick.clone();
            longer.push('_');
            longer
        };
        self.nick_attempt = self.nick_attempt.saturating_add(1);
        self.nick = trying.clone();
        self.model.me_mut().nick = trying.clone();
        self.tell(Event::NickInUse { refused, trying: trying.clone() });
        self.send(&Line::new("NICK", params1(&trying)));
    }

    fn drain_batch(&mut self, closed: &ClosedBatch)
        ensures
            final(self)@ == old(self)@.draining(closed@),
    {
        proof {
            reveal(ClientView::draining);
        }
        let historical = same(&closed.kind, "chathistory") || match &closed.parent {
            Some(parent) => self.batches.is_within(parent, "chathistory"),
            None => false,
        };
        let ghost start = self@;
        let ghost all = closed@.messages;
        let mut i: usize = 0;
        assert(all.take(0) =~= Seq::empty());
        while i < closed.messages.len()
            invariant
                i <= closed.messages@.len() == all.len(),
                all == closed.messages.deep_view(),
                self@ == start.folding_all(all.take(i as int), historical),
            decreases closed.messages@.len() - i,
        {
            assert(all.take(i + 1).drop_last() =~= all.take(i as int));
            self.fold(&closed.messages[i], historical);
            i = i + 1;
        }
        assert(all.take(all.len() as int) =~= all);
    }

    fn handle_batch(&mut self, line: &Line)
        ensures
            final(self)@ == old(self)@.on_batch(line@),
    {
        proof {
            reveal(ClientView::on_batch);
        }
        let marker = or_empty(line.param(0));
        let ghost before = self@;
        if let Some(mark) = first_char(&marker) {
            if mark == '+' {
                self.batches.open(line);
                return;
            }
        }
        match self.batches.close(line) {
            Some(closed) => self.drain_batch(&closed),
            None => {
                assert(self@.batches =~= before.batches);
            },
        }
    }

    fn handle_rest(&mut self, line: Line)
        ensures
            final(self)@ == old(self)@.on_rest(line@),
    {
        proof {
            reveal(ClientView::on_rest);
        }
        if line.is("AUTHENTICATE") {
            self.handle_authenticate(&line);
            return;
        }
        if line.is("433") || line.is("432") {
            self.handle_nick_refused(&line);
            return;
        }
        if let Some(reason) = sasl_failure(&line.command) {
            self.finish_sasl(Some(reason));
            return;
        }
        // 900 carries the account name; 903 only confirms. A server sends both.
        if line.is("900") {
            if let Some(account) = line.param(2) {
                self.tell(Event::LoggedIn { account: account.to_owned() });
            }
            return;
        }
        if line.is("903") {
            self.finish_sasl(None);
            return;
        }
        if line.is("BATCH") {
            self.handle_batch(&line);
            return;
        }
        // a line inside an open batch is held until the batch closes, so that history arrives as
        // one consistent block rather than trickling in and reordering what is already shown
        let ghost before = self@;
        if let Some(line) = self.batches.route(line) {
            assert(self@ =~= before);
            self.fold(&line, false);
        }
    }

    fn handle_business(&mut self, line: Line)
        ensures
            final(self)@ == old(self)@.handling(line@),
    {
        proof {
            reveal(ClientView::handling);
        }
        if line.is("PONG") {
            return;
        }
        if line.is("PING") {
            let token = or_empty(line.trailing());
            self.send(&Line::new("PONG", params1(&token)));
            return;
        }
        if line.is("CAP") {
            self.handle_cap(&line);
            return;
        }
        if line.is("001") {
            self.register(&line);
            return;
        }
        if line.is("005") {
            self.handle_isupport(&line);
            return;
        }
        if line.is("TAGMSG") {
            if self.handle_typing(&line) {
                return;
            }
            if self.handle_rtc(&line) {
                return;
            }
        }
        if line.is("CMDSLIST") {
            self.commands.apply(&line);
            self.tell(Event::CommandsChanged);
            return;
        }
        if same(&line.command, "730") || same(&line.command, "731") {
            self.handle_monitor(&line);
            return;
        }
        if let Some(severity) = severity_of(&line.command) {
            if self.handle_standard_reply(severity, &line) {
                return;
            }
        }
        self.handle_rest(line);
    }

    /// Take one line from the server.
    pub fn handle_message(&mut self, line: Line)
        ensures
            final(self)@ == old(self)@.receiving(line@),
            final(self)@.finite(),
    {
        proof {
            reveal(ClientView::receiving);
        }
        // any line at all proves that the link is alive, so the keepalive clock starts over
        self.arm_keepalive();
        self.labels.resolve(&line);
        self.handle_business(line);
        proof {
            use_type_invariant(&self.timers.deadlines);
            use_type_invariant(&self.model.channels);
            self.timers.lemma_finite();
            self.model.lemma_finite();
        }
    }

    fn take_line(&mut self, bytes: &[u8])
        ensures
            final(self)@ == old(self)@.taking(bytes@),
    {
        if self.discarding {
            self.discarding = false;
            return;
        }
        // servers are not reliably UTF-8, and one bad byte must not cost us the line
        let text = lossy_text(bytes);
        match Line::parse(&text) {
            Some(line) => self.handle_message(line),
            None => self.drop_line(),
        }
    }

    /// Feed whatever the transport read. Partial lines are held until the rest arrives.
    pub fn handle_bytes(&mut self, data: &[u8])
        ensures
            final(self)@ == old(self)@.feeding(data@),
            final(self)@.finite(),
    {
        let mut bytes: Vec<u8> = Vec::new();
        core::mem::swap(&mut bytes, &mut self.partial);
        let mut more = vstd::slice::slice_to_vec(data);
        bytes.append(&mut more);
        let ghost start = self@;
        let ghost all = bytes@;
        assert(start =~= (ClientView { partial: Seq::empty(), ..old(self)@ }));
        assert(all =~= old(self)@.partial + data@);
        let mut from: usize = 0;
        assert(all.skip(0) =~= all);
        loop
            invariant_except_break
                from <= bytes@.len(),
                bytes@ == all,
                start.reading(all) == self@.reading(all.skip(from as int)),
            ensures
                start.reading(all) == self@,
            decreases bytes@.len() - from,
        {
            let ghost rest = all.skip(from as int);
            let end: usize = find_newline(&bytes, from);
            if end < bytes.len() {
                let line = vstd::slice::slice_subrange(bytes.as_slice(), from, end + 1);
                assert(line@ =~= rest.take(end + 1 - from));
                assert(all.skip(end + 1) =~= rest.skip(end + 1 - from));
                self.take_line(line);
                from = end + 1;
            } else {
                if bytes.len() - from > MAX_INBOUND_LINE {
                    self.partial = Vec::new();
                    assert(self.partial@ =~= Seq::<u8>::empty());
                    if !self.discarding {
                        self.discarding = true;
                        self.drop_line();
                    }
                } else {
                    let left = vstd::slice::slice_subrange(bytes.as_slice(), from, bytes.len());
                    self.partial = vstd::slice::slice_to_vec(left);
                    assert(self.partial@ =~= rest);
                }
                break;
            }
        }
        proof {
            use_type_invariant(&self.timers.deadlines);
            use_type_invariant(&self.model.channels);
            self.timers.lemma_finite();
            self.model.lemma_finite();
        }
    }

    /// How many inbound lines were dropped, either unparseable or longer than we hold.
    ///
    /// Nothing is returned to the host when a line is dropped, because there is nothing that it
    /// could do about it. The count is here so that a host can see that it happens at all.
    pub fn dropped_lines(&self) -> (r: u64)
        ensures
            r == self@.dropped_lines,
    {
        self.dropped_lines
    }

    /// Bytes that the host should write to the transport, or nothing when there are none.
    pub fn poll_transmit(&mut self) -> (r: Option<Vec<u8>>)
        ensures
            match r {
                Some(bytes) => {
                    &&& old(self)@.outbox.len() > 0
                    &&& bytes@ == old(self)@.outbox[0]
                    &&& final(self)@ == (ClientView {
                        outbox: old(self)@.outbox.skip(1),
                        ..old(self)@
                    })
                },
                None => old(self)@.outbox.len() == 0 && final(self)@ == old(self)@,
            },
    {
        let r = self.outbox.pop_front();
        assert(old(self)@.outbox.len() > 0 ==> self@.outbox =~= old(self)@.outbox.skip(1));
        r
    }

    /// The next thing that happened, or nothing when the host is caught up.
    pub fn poll_event(&mut self) -> (r: Option<Event>)
        ensures
            match r {
                Some(event) => {
                    &&& old(self)@.events.len() > 0
                    &&& event@ == old(self)@.events[0]
                    &&& final(self)@ == (ClientView {
                        events: old(self)@.events.skip(1),
                        ..old(self)@
                    })
                },
                None => old(self)@.events.len() == 0 && final(self)@ == old(self)@,
            },
    {
        let r = self.events.pop_front();
        assert(old(self)@.events.len() > 0 ==> self@.events =~= old(self)@.events.skip(1));
        r
    }

    /// Everything that happened since the last drain, oldest first.
    ///
    /// A call across a language boundary costs the same whether it carries one event or a hundred.
    pub fn drain_events(&mut self) -> (r: Vec<Event>)
        ensures
            r.deep_view() == old(self)@.events,
            final(self)@ == (ClientView { events: Seq::empty(), ..old(self)@ }),
    {
        let ghost all = self@.events;
        let mut out: Vec<Event> = Vec::new();
        let mut next = self.poll_event();
        assert(all.take(0) =~= Seq::empty());
        assert(out.deep_view() =~= all.take(0));
        while next.is_some()
            invariant
                out@.len() <= all.len(),
                out.deep_view() == all.take(out@.len() as int),
                match next {
                    Some(event) => out@.len() < all.len() && event@ == all[out@.len() as int]
                        && self@.events == all.skip(out@.len() as int + 1),
                    None => out@.len() == all.len() && self@.events == Seq::<EventView>::empty(),
                },
                self@ == (ClientView { events: self@.events, ..old(self)@ }),
            decreases all.len() - out@.len(),
        {
            let ghost had = out.deep_view();
            if let Some(event) = next {
                out.push(event);
                assert(out.deep_view() =~= had.push(event@));
                assert(out.deep_view() =~= all.take(out@.len() as int));
            }
            let ghost rest = self@.events;
            next = self.poll_event();
            assert(rest.len() > 0 ==> rest.skip(1) =~= all.skip(out@.len() as int + 1));
            assert(rest.len() == 0 ==> rest =~= Seq::empty());
        }
        assert(all.take(all.len() as int) =~= all);
        out
    }

    /// How far registration has got.
    pub fn phase(&self) -> (r: Phase)
        ensures
            r == self@.phase,
    {
        self.phase
    }

    /// The nick that the server currently knows us by.
    pub fn nick(&self) -> (r: &str)
        ensures
            r@ == self@.nick,
    {
        self.nick.as_str()
    }

    /// The capabilities that the server offers and the ones we hold.
    pub fn caps(&self) -> (r: &Capabilities)
        ensures
            r@ == self@.caps,
    {
        &self.caps
    }

    /// Everything that the server advertised about itself: casemapping, prefixes, limits.
    pub fn isupport(&self) -> (r: &Features)
        ensures
            r@ == self@.isupport,
    {
        &self.isupport
    }

    /// The commands that the server says we may currently use.
    ///
    /// Empty until the server sends its list, which it does on connect and again whenever what we
    /// may do changes.
    pub fn allowed_commands(&self) -> (r: &Commands)
        ensures
            r@ == self@.commands,
    {
        &self.commands
    }

    /// The voice room for a channel, once we have heard any signalling for it.
    ///
    /// Signalling and room state only. Every track, codec and peer connection is the host's.
    pub fn room(&self, channel: &CaseFolded) -> (r: Option<&Room>)
        ensures
            match r {
                Some(room) => self@.rooms.contains_key(channel@) && room@ == self@.rooms[channel@],
                None => !self@.rooms.contains_key(channel@),
            },
    {
        self.rooms.get(channel)
    }

    /// Who we are watching for coming online, and who is here.
    pub fn monitor(&self) -> (r: &Monitor)
        ensures
            r@ == self@.monitor,
    {
        &self.monitor
    }

    /// Everything that the connection knows: channels, members, conversations, messages.
    pub fn model(&self) -> (r: &Model)
        ensures
            r@ == self@.model,
    {
        &self.model
    }

    /// The casemapping to fold nicks and channel names with.
    pub fn casemapping(&self) -> (r: Casemapping)
        ensures
            r == self@.isupport.casemapping(),
    {
        self.isupport.casemapping()
    }
}

/// Where the first newline stands from `from` on, or where the bytes end.
fn find_newline(bytes: &Vec<u8>, from: usize) -> (r: usize)
    requires
        from <= bytes@.len(),
    ensures
        from <= r <= bytes@.len(),
        r - from == line_end(bytes@.skip(from as int)),
{
    let mut i: usize = from;
    while i < bytes.len() && bytes[i] != 10
        invariant
            from <= i <= bytes@.len(),
            line_end(bytes@.skip(from as int)) == (i - from) + line_end(bytes@.skip(i as int)),
        decreases bytes@.len() - i,
    {
        assert(bytes@.skip(i as int).skip(1) =~= bytes@.skip(i + 1));
        i = i + 1;
    }
    i
}

} // verus!

//! What the engine tells its host.

use vstd::prelude::*;

use crate::sasl::SaslFailure;
use crate::session::{Change, ChangeView};
use crate::voice::{Signal, SignalView};
use crate::wire::{Line, LineView};

verus! {

/// How serious a `standard-replies` message is.
#[derive(Debug, Clone, Copy, PartialEq, Eq, Structural)]
pub enum Severity {
    /// The command did not happen.
    Fail,
    /// The command happened, with a caveat.
    Warn,
    /// Something worth saying, with nothing gone wrong.
    Note,
}

/// Something the host needs to know about.
///
/// Events are drained with `Client::poll_event` rather than delivered through a callback, because a
/// callback needs a different lifetime, threading and re-entrancy contract in every language that
/// this engine is bound into.
#[derive(Debug, PartialEq, Eq)]
#[non_exhaustive]
#[allow(inconsistent_fields)]
pub enum Event {
    /// A capability was acknowledged, and whatever it enables is now live.
    CapAcknowledged {
        /// The capability names, as acknowledged.
        names: Vec<String>,
    },
    /// Registration finished. `001` arrived and the nick is settled.
    Registered {
        /// The nick the server actually gave us, which may differ from the one we asked for.
        nick: String,
    },
    /// An ISUPPORT token arrived. Emitted per token so a host can react to one without diffing.
    Isupport {
        /// The token name, such as `CHANMODES`.
        token: String,
        /// Its value, absent for a boolean token, present and empty for `TOKEN=`.
        value: Option<String>,
    },
    /// Authentication succeeded.
    LoggedIn {
        /// The account the server logged us in as.
        account: String,
    },
    /// Authentication did not succeed. Registration continues unauthenticated.
    SaslFailed {
        /// Why it ended.
        reason: SaslFailure,
    },
    /// The server refused a nick and the engine is trying another.
    NickInUse {
        /// The nick that was refused.
        refused: String,
        /// What is being tried instead.
        trying: String,
    },
    /// The model changed.
    Changed {
        /// What changed.
        change: Change,
    },
    /// The link went quiet for too long and should be treated as dead. The host closes its socket
    /// and waits for [`Event::Reconnect`].
    LinkDead,
    /// Time to open a new connection. The host dials and calls `Client::connected`.
    Reconnect {
        /// How long the host should wait first.
        after_ms: u64,
    },
    /// Reconnecting has been given up on after too many attempts.
    ReconnectGaveUp,
    /// A command we labelled never got its reply.
    CommandTimedOut {
        /// The command that went unanswered.
        command: String,
    },
    /// The set of commands the server allows us changed.
    CommandsChanged,
    /// A voice signalling frame arrived, and the room state has already been updated for it.
    ///
    /// The host handles the media plane: this carries the session descriptions and candidates it
    /// needs, and nothing that touches a track.
    Voice {
        /// The channel the room belongs to.
        channel: String,
        /// The frame.
        signal: Signal,
    },
    /// Someone started or stopped composing a message.
    Typing {
        /// The channel or conversation they are composing in.
        target: String,
        /// Who.
        nick: String,
        /// True when they are composing now.
        typing: bool,
    },
    /// Someone we watch came online or went offline.
    Presence {
        /// Who.
        nick: String,
        /// True when they are here now.
        online: bool,
    },
    /// The server reported the outcome of something, through `standard-replies`.
    Reply {
        /// How serious it is.
        severity: Severity,
        /// The command it concerns, or `*` when the server did not say.
        command: String,
        /// The machine-readable code, such as `ACCOUNT_REQUIRED_TO_CONNECT`.
        code: String,
        /// Any further parameters the server gave, before the description.
        context: Vec<String>,
        /// The human-readable description.
        text: String,
    },
    /// A line arrived that the engine has no dedicated handling for. Everything is surfaced, so
    /// a host is never blind to traffic the engine does not model.
    Raw {
        /// The line.
        message: Line,
    },
}

/// What an [`Event`] says.
#[allow(inconsistent_fields)]
pub enum EventView {
    CapAcknowledged { names: Seq<Seq<char>> },
    Registered { nick: Seq<char> },
    Isupport { token: Seq<char>, value: Option<Seq<char>> },
    LoggedIn { account: Seq<char> },
    SaslFailed { reason: SaslFailure },
    NickInUse { refused: Seq<char>, trying: Seq<char> },
    Changed { change: ChangeView },
    LinkDead,
    Reconnect { after_ms: u64 },
    ReconnectGaveUp,
    CommandTimedOut { command: Seq<char> },
    CommandsChanged,
    Voice { channel: Seq<char>, signal: SignalView },
    Typing { target: Seq<char>, nick: Seq<char>, typing: bool },
    Presence { nick: Seq<char>, online: bool },
    Reply { severity: Severity, command: Seq<char>, code: Seq<char>, context: Seq<Seq<char>>, text: Seq<char> },
    Raw { message: LineView },
}

impl View for Event {
    type V = EventView;

    open spec fn view(&self) -> EventView {
        match self {
            Event::CapAcknowledged { names } => EventView::CapAcknowledged {
                names: names.deep_view(),
            },
            Event::Registered { nick } => EventView::Registered {
                nick: nick@,
            },
            Event::Isupport { token, value } => EventView::Isupport {
                token: token@,
                value: value.deep_view(),
            },
            Event::LoggedIn { account } => EventView::LoggedIn {
                account: account@,
            },
            Event::SaslFailed { reason } => EventView::SaslFailed {
                reason: *reason,
            },
            Event::NickInUse { refused, trying } => EventView::NickInUse {
                refused: refused@,
                trying: trying@,
            },
            Event::Changed { change } => EventView::Changed {
                change: change@,
            },
            Event::LinkDead => EventView::LinkDead,
            Event::Reconnect { after_ms } => EventView::Reconnect {
                after_ms: *after_ms,
            },
            Event::ReconnectGaveUp => EventView::ReconnectGaveUp,
            Event::CommandTimedOut { command } => EventView::CommandTimedOut {
                command: command@,
            },
            Event::CommandsChanged => EventView::CommandsChanged,
            Event::Voice { channel, signal } => EventView::Voice {
                channel: channel@,
                signal: signal@,
            },
            Event::Typing { target, nick, typing } => EventView::Typing {
                target: target@,
                nick: nick@,
                typing: *typing,
            },
            Event::Presence { nick, online } => EventView::Presence {
                nick: nick@,
                online: *online,
            },
            Event::Reply { severity, command, code, context, text } => EventView::Reply {
                severity: *severity,
                command: command@,
                code: code@,
                context: context.deep_view(),
                text: text@,
            },
            Event::Raw { message } => EventView::Raw {
                message: message@,
            },
        }
    }
}

impl DeepView for Event {
    type V = EventView;

    open spec fn deep_view(&self) -> EventView {
        self@
    }
}

} // verus!

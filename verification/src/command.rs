//! What a host asks the connection to do.
//!
//! One enum rather than a method per action, because this is the half of the API that crosses into
//! other languages, and a single tagged value binds far more cheaply than a wide surface.

use vstd::prelude::*;

verus! {

/// Whether we are still composing a message.
#[derive(Debug, Clone, Copy, PartialEq, Eq, Structural)]
pub enum Typing {
    /// Typing right now.
    Active,
    /// Stopped, with text still in the box.
    Paused,
    /// Stopped, with the box empty.
    Done,
}

impl Typing {
    /// How this is spelled in a tag.
    pub open spec fn spelling(self) -> Seq<char> {
        match self {
            Typing::Active => "active"@,
            Typing::Paused => "paused"@,
            Typing::Done => "done"@,
        }
    }

    /// How this is spelled in a tag.
    pub fn as_str(self) -> (r: &'static str)
        ensures
            r@ == self.spelling(),
    {
        match self {
            Typing::Active => "active",
            Typing::Paused => "paused",
            Typing::Done => "done",
        }
    }
}

/// Something to do on this connection.
#[derive(Debug, Clone, PartialEq, Eq)]
#[non_exhaustive]
#[allow(inconsistent_fields)]
pub enum Command {
    /// Join a channel.
    Join {
        /// The channel to join.
        channel: String,
        /// Its key, when it has one.
        key: Option<String>,
    },
    /// Leave a channel.
    Part {
        /// The channel to leave.
        channel: String,
        /// Why, shown to the others in it.
        reason: Option<String>,
    },
    /// Say something to a channel or a person.
    SendMessage {
        /// Where to say it.
        target: String,
        /// What to say.
        text: String,
    },
    /// Send a notice, which by convention must never be auto-replied to.
    SendNotice {
        /// Where to send it.
        target: String,
        /// What to send.
        text: String,
    },
    /// Send a `CTCP ACTION`, the third-person form.
    SendAction {
        /// Where to send it.
        target: String,
        /// What we are doing.
        text: String,
    },
    /// Change our nick.
    SetNick {
        /// The nick to take.
        nick: String,
    },
    /// Set or clear a channel topic.
    SetTopic {
        /// The channel.
        channel: String,
        /// The new topic, or nothing to clear it.
        topic: Option<String>,
    },
    /// Mark ourselves away, or come back.
    SetAway {
        /// The away message, or nothing to come back.
        message: Option<String>,
    },
    /// Say we are typing, so others can show it.
    SetTyping {
        /// Who we are typing to.
        target: String,
        /// How far along we are.
        state: Typing,
    },
    /// React to a message with an emoji.
    AddReaction {
        /// The channel or person the message is in.
        target: String,
        /// The message reacted to.
        msgid: String,
        /// The emoji.
        emoji: String,
    },
    /// Take a reaction back.
    RemoveReaction {
        /// The channel or person the message is in.
        target: String,
        /// The message.
        msgid: String,
        /// The emoji to remove.
        emoji: String,
    },
    /// Ask the server to delete a message.
    RedactMessage {
        /// Where the message is.
        target: String,
        /// The message to delete.
        msgid: String,
        /// Why, when the server wants a reason.
        reason: Option<String>,
    },
    /// Tell the server how far we have read.
    MarkRead {
        /// The channel or person.
        target: String,
        /// The `server-time` of the last message read.
        timestamp: String,
    },
    /// Ask for older messages than the ones we hold.
    ///
    /// With no `before`, this asks for the most recent, which is what a fresh window wants.
    FetchHistory {
        /// The channel or person.
        target: String,
        /// Fetch messages older than this one.
        before: Option<String>,
        /// How many to ask for.
        limit: u16,
    },
    /// Set one of our own metadata keys, or clear it.
    SetMetadata {
        /// The key, such as `display-name`, `color` or `avatar`.
        key: String,
        /// The value, or nothing to clear the key.
        value: Option<String>,
    },
    /// Ask to be told when these metadata keys change on anyone we can see.
    SubscribeMetadata {
        /// The keys to watch.
        keys: Vec<String>,
    },
    /// Watch these nicks, so the server says when they come and go.
    WatchNicks {
        /// The nicks to watch.
        nicks: Vec<String>,
    },
    /// Stop watching these nicks.
    UnwatchNicks {
        /// The nicks to stop watching.
        nicks: Vec<String>,
    },
    /// Send a voice signalling frame to a room.
    ///
    /// The frame is the host's to build, because everything in it comes from the media stack the
    /// core deliberately knows nothing about.
    SendVoiceSignal {
        /// The channel to signal in.
        channel: String,
        /// The frame, already encoded as the JSON that travels in the tag.
        signal_json: String,
    },
    /// Leave the network.
    Quit {
        /// Why.
        reason: Option<String>,
    },
    /// Send a line we do not model. The escape hatch, so a host is never stuck waiting for us.
    SendRawLine {
        /// The line, without its terminator.
        line: String,
    },
}

/// What a [`Command`] says.
#[allow(inconsistent_fields)]
pub enum CommandView {
    Join { channel: Seq<char>, key: Option<Seq<char>> },
    Part { channel: Seq<char>, reason: Option<Seq<char>> },
    SendMessage { target: Seq<char>, text: Seq<char> },
    SendNotice { target: Seq<char>, text: Seq<char> },
    SendAction { target: Seq<char>, text: Seq<char> },
    SetNick { nick: Seq<char> },
    SetTopic { channel: Seq<char>, topic: Option<Seq<char>> },
    SetAway { message: Option<Seq<char>> },
    SetTyping { target: Seq<char>, state: Typing },
    AddReaction { target: Seq<char>, msgid: Seq<char>, emoji: Seq<char> },
    RemoveReaction { target: Seq<char>, msgid: Seq<char>, emoji: Seq<char> },
    RedactMessage { target: Seq<char>, msgid: Seq<char>, reason: Option<Seq<char>> },
    MarkRead { target: Seq<char>, timestamp: Seq<char> },
    FetchHistory { target: Seq<char>, before: Option<Seq<char>>, limit: u16 },
    SetMetadata { key: Seq<char>, value: Option<Seq<char>> },
    SubscribeMetadata { keys: Seq<Seq<char>> },
    WatchNicks { nicks: Seq<Seq<char>> },
    UnwatchNicks { nicks: Seq<Seq<char>> },
    SendVoiceSignal { channel: Seq<char>, signal_json: Seq<char> },
    Quit { reason: Option<Seq<char>> },
    SendRawLine { line: Seq<char> },
}

impl View for Command {
    type V = CommandView;

    open spec fn view(&self) -> CommandView {
        match self {
            Command::Join { channel, key } => CommandView::Join {
                channel: channel@,
                key: key.deep_view(),
            },
            Command::Part { channel, reason } => CommandView::Part {
                channel: channel@,
                reason: reason.deep_view(),
            },
            Command::SendMessage { target, text } => CommandView::SendMessage {
                target: target@,
                text: text@,
            },
            Command::SendNotice { target, text } => CommandView::SendNotice {
                target: target@,
                text: text@,
            },
            Command::SendAction { target, text } => CommandView::SendAction {
                target: target@,
                text: text@,
            },
            Command::SetNick { nick } => CommandView::SetNick {
                nick: nick@,
            },
            Command::SetTopic { channel, topic } => CommandView::SetTopic {
                channel: channel@,
                topic: topic.deep_view(),
            },
            Command::SetAway { message } => CommandView::SetAway {
                message: message.deep_view(),
            },
            Command::SetTyping { target, state } => CommandView::SetTyping {
                target: target@,
                state: *state,
            },
            Command::AddReaction { target, msgid, emoji } => CommandView::AddReaction {
                target: target@,
                msgid: msgid@,
                emoji: emoji@,
            },
            Command::RemoveReaction { target, msgid, emoji } => CommandView::RemoveReaction {
                target: target@,
                msgid: msgid@,
                emoji: emoji@,
            },
            Command::RedactMessage { target, msgid, reason } => CommandView::RedactMessage {
                target: target@,
                msgid: msgid@,
                reason: reason.deep_view(),
            },
            Command::MarkRead { target, timestamp } => CommandView::MarkRead {
                target: target@,
                timestamp: timestamp@,
            },
            Command::FetchHistory { target, before, limit } => CommandView::FetchHistory {
                target: target@,
                before: before.deep_view(),
                limit: *limit,
            },
            Command::SetMetadata { key, value } => CommandView::SetMetadata {
                key: key@,
                value: value.deep_view(),
            },
            Command::SubscribeMetadata { keys } => CommandView::SubscribeMetadata {
                keys: keys.deep_view(),
            },
            Command::WatchNicks { nicks } => CommandView::WatchNicks {
                nicks: nicks.deep_view(),
            },
            Command::UnwatchNicks { nicks } => CommandView::UnwatchNicks {
                nicks: nicks.deep_view(),
            },
            Command::SendVoiceSignal { channel, signal_json } => CommandView::SendVoiceSignal {
                channel: channel@,
                signal_json: signal_json@,
            },
            Command::Quit { reason } => CommandView::Quit {
                reason: reason.deep_view(),
            },
            Command::SendRawLine { line } => CommandView::SendRawLine {
                line: line@,
            },
        }
    }
}

} // verus!

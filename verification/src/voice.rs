//! Voice signalling: the `+obsidianirc/rtc` frames, the splitting of oversized ones, and who is in a
//! room.

use vstd::prelude::*;
use vstd::string::*;

use crate::json::{
    field_in, field_views, first_field, lemma_views, read, text_in, u32_in, views, written, Json,
    JsonView,
};

use crate::text::{copy_strings, same};

verus! {

/// The two states that a toggle has.
#[derive(Debug, Clone, Copy, PartialEq, Eq, Structural)]
pub enum OnOff {
    /// It is on.
    On,
    /// It is off.
    Off,
}

impl DeepView for OnOff {
    type V = OnOff;

    open spec fn deep_view(&self) -> OnOff {
        *self
    }
}

impl OnOff {
    /// How it is spelled on the wire.
    pub open spec fn spelling(self) -> Seq<char> {
        match self {
            OnOff::On => "on"@,
            OnOff::Off => "off"@,
        }
    }

    /// What a spelling stands for.
    pub open spec fn spelled(text: Seq<char>) -> Option<OnOff> {
        if text == "on"@ {
            Some(OnOff::On)
        } else if text == "off"@ {
            Some(OnOff::Off)
        } else {
            None
        }
    }

    /// How it is spelled on the wire.
    pub fn wire(self) -> (r: &'static str)
        ensures
            r@ == self.spelling(),
    {
        match self {
            OnOff::On => "on",
            OnOff::Off => "off",
        }
    }

    /// Read a spelling.
    pub fn parse(text: &str) -> (r: Option<Self>)
        ensures
            r == OnOff::spelled(text@),
    {
        if same(text, "on") {
            Some(OnOff::On)
        } else if same(text, "off") {
            Some(OnOff::Off)
        } else {
            None
        }
    }

    /// Every value is what its spelling stands for.
    pub proof fn law_spelled(self)
        ensures
            OnOff::spelled(self.spelling()) == Some(self),
    {
        reveal_strlit("on");
        reveal_strlit("off");
        assert("on"@.len() == 2 && "on"@[0] == 'o' && "on"@[1] == 'n');
        assert("off"@.len() == 3 && "off"@[0] == 'o' && "off"@[1] == 'f');
    }
}

/// Whether someone in a room may publish, or only receive.
#[derive(Debug, Clone, Copy, PartialEq, Eq, Structural)]
pub enum Role {
    /// May publish.
    Publisher,
    /// Only receives.
    Viewer,
}

impl DeepView for Role {
    type V = Role;

    open spec fn deep_view(&self) -> Role {
        *self
    }
}

impl Role {
    /// How it is spelled on the wire.
    pub open spec fn spelling(self) -> Seq<char> {
        match self {
            Role::Publisher => "streamer"@,
            Role::Viewer => "viewer"@,
        }
    }

    /// What a spelling stands for.
    pub open spec fn spelled(text: Seq<char>) -> Option<Role> {
        if text == "streamer"@ {
            Some(Role::Publisher)
        } else if text == "viewer"@ {
            Some(Role::Viewer)
        } else {
            None
        }
    }

    /// How it is spelled on the wire.
    pub fn wire(self) -> (r: &'static str)
        ensures
            r@ == self.spelling(),
    {
        match self {
            Role::Publisher => "streamer",
            Role::Viewer => "viewer",
        }
    }

    /// Read a spelling.
    pub fn parse(text: &str) -> (r: Option<Self>)
        ensures
            r == Role::spelled(text@),
    {
        if same(text, "streamer") {
            Some(Role::Publisher)
        } else if same(text, "viewer") {
            Some(Role::Viewer)
        } else {
            None
        }
    }

    /// Every value is what its spelling stands for.
    pub proof fn law_spelled(self)
        ensures
            Role::spelled(self.spelling()) == Some(self),
    {
        reveal_strlit("streamer");
        reveal_strlit("viewer");
        assert("streamer"@.len() == 8 && "streamer"@[0] == 's' && "streamer"@[1] == 't');
        assert("viewer"@.len() == 6 && "viewer"@[0] == 'v' && "viewer"@[1] == 'i');
    }
}

/// Who may publish in a voice room, which the channel's first character decides.
#[derive(Debug, Clone, Copy, PartialEq, Eq, Structural)]
pub enum RoomKind {
    /// Every member publishes.
    Publish,
    /// A streamer publishes, and whoever they promote.
    Stream,
}

impl DeepView for RoomKind {
    type V = RoomKind;

    open spec fn deep_view(&self) -> RoomKind {
        *self
    }
}

impl RoomKind {
    /// How it is spelled on the wire.
    pub open spec fn spelling(self) -> Seq<char> {
        match self {
            RoomKind::Publish => "voice"@,
            RoomKind::Stream => "stream"@,
        }
    }

    /// What a spelling stands for.
    pub open spec fn spelled(text: Seq<char>) -> Option<RoomKind> {
        if text == "voice"@ {
            Some(RoomKind::Publish)
        } else if text == "stream"@ {
            Some(RoomKind::Stream)
        } else {
            None
        }
    }

    /// How it is spelled on the wire.
    pub fn wire(self) -> (r: &'static str)
        ensures
            r@ == self.spelling(),
    {
        match self {
            RoomKind::Publish => "voice",
            RoomKind::Stream => "stream",
        }
    }

    /// Read a spelling.
    pub fn parse(text: &str) -> (r: Option<Self>)
        ensures
            r == RoomKind::spelled(text@),
    {
        if same(text, "voice") {
            Some(RoomKind::Publish)
        } else if same(text, "stream") {
            Some(RoomKind::Stream)
        } else {
            None
        }
    }

    /// Every value is what its spelling stands for.
    pub proof fn law_spelled(self)
        ensures
            RoomKind::spelled(self.spelling()) == Some(self),
    {
        reveal_strlit("voice");
        reveal_strlit("stream");
        assert("voice"@.len() == 5 && "voice"@[0] == 'v' && "voice"@[1] == 'o');
        assert("stream"@.len() == 6 && "stream"@[0] == 's' && "stream"@[1] == 't');
    }

    /// The kind that a channel's name stands for: `$` streams, and any other publishes.
    pub open spec fn of_channel(channel: Seq<char>) -> RoomKind {
        if channel.len() > 0 && channel[0] == '$' {
            RoomKind::Stream
        } else {
            RoomKind::Publish
        }
    }

    /// The kind that a channel's name stands for.
    pub fn for_channel(channel: &str) -> (r: Self)
        ensures
            r == RoomKind::of_channel(channel@),
    {
        match crate::text::first_char(channel) {
            Some(c) => if c == '$' {
                RoomKind::Stream
            } else {
                RoomKind::Publish
            },
            None => RoomKind::Publish,
        }
    }
}

/// Which toggle of a participant a `presence` reports.
#[derive(Debug, Clone, Copy, PartialEq, Eq, Structural)]
pub enum ToggleKind {
    /// Microphone.
    Mic,
    /// Camera.
    Video,
    /// Screen share.
    Screen,
    /// Raised hand.
    Hand,
}

impl DeepView for ToggleKind {
    type V = ToggleKind;

    open spec fn deep_view(&self) -> ToggleKind {
        *self
    }
}

impl ToggleKind {
    /// How it is spelled on the wire.
    pub open spec fn spelling(self) -> Seq<char> {
        match self {
            ToggleKind::Mic => "mic"@,
            ToggleKind::Video => "video"@,
            ToggleKind::Screen => "screen"@,
            ToggleKind::Hand => "hand"@,
        }
    }

    /// What a spelling stands for.
    pub open spec fn spelled(text: Seq<char>) -> Option<ToggleKind> {
        if text == "mic"@ {
            Some(ToggleKind::Mic)
        } else if text == "video"@ {
            Some(ToggleKind::Video)
        } else if text == "screen"@ {
            Some(ToggleKind::Screen)
        } else if text == "hand"@ {
            Some(ToggleKind::Hand)
        } else {
            None
        }
    }

    /// How it is spelled on the wire.
    pub fn wire(self) -> (r: &'static str)
        ensures
            r@ == self.spelling(),
    {
        match self {
            ToggleKind::Mic => "mic",
            ToggleKind::Video => "video",
            ToggleKind::Screen => "screen",
            ToggleKind::Hand => "hand",
        }
    }

    /// Read a spelling.
    pub fn parse(text: &str) -> (r: Option<Self>)
        ensures
            r == ToggleKind::spelled(text@),
    {
        if same(text, "mic") {
            Some(ToggleKind::Mic)
        } else if same(text, "video") {
            Some(ToggleKind::Video)
        } else if same(text, "screen") {
            Some(ToggleKind::Screen)
        } else if same(text, "hand") {
            Some(ToggleKind::Hand)
        } else {
            None
        }
    }

    /// Every value is what its spelling stands for.
    pub proof fn law_spelled(self)
        ensures
            ToggleKind::spelled(self.spelling()) == Some(self),
    {
        reveal_strlit("mic");
        reveal_strlit("video");
        reveal_strlit("screen");
        reveal_strlit("hand");
        assert("mic"@.len() == 3 && "mic"@[0] == 'm' && "mic"@[1] == 'i');
        assert("video"@.len() == 5 && "video"@[0] == 'v' && "video"@[1] == 'i');
        assert("screen"@.len() == 6 && "screen"@[0] == 's' && "screen"@[1] == 'c');
        assert("hand"@.len() == 4 && "hand"@[0] == 'h' && "hand"@[1] == 'a');
    }
}

/// The state that a `presence` carries: a membership change, a toggle, or an activity.
#[derive(Debug, Clone, Copy, PartialEq, Eq, Structural)]
pub enum PresenceState {
    /// They joined the room.
    Joined,
    /// They left the room.
    Left,
    /// The toggle named by `kind` turned on.
    On,
    /// The toggle named by `kind` turned off.
    Off,
    /// They started talking.
    Speaking,
    /// They stopped talking.
    Silent,
    /// They deafened themself.
    DeafOn,
    /// They no longer deafen themself.
    DeafOff,
}

impl DeepView for PresenceState {
    type V = PresenceState;

    open spec fn deep_view(&self) -> PresenceState {
        *self
    }
}

impl PresenceState {
    /// How it is spelled on the wire.
    pub open spec fn spelling(self) -> Seq<char> {
        match self {
            PresenceState::Joined => "joined"@,
            PresenceState::Left => "left"@,
            PresenceState::On => "on"@,
            PresenceState::Off => "off"@,
            PresenceState::Speaking => "speaking"@,
            PresenceState::Silent => "silent"@,
            PresenceState::DeafOn => "deaf-on"@,
            PresenceState::DeafOff => "deaf-off"@,
        }
    }

    /// What a spelling stands for.
    pub open spec fn spelled(text: Seq<char>) -> Option<PresenceState> {
        if text == "joined"@ {
            Some(PresenceState::Joined)
        } else if text == "left"@ {
            Some(PresenceState::Left)
        } else if text == "on"@ {
            Some(PresenceState::On)
        } else if text == "off"@ {
            Some(PresenceState::Off)
        } else if text == "speaking"@ {
            Some(PresenceState::Speaking)
        } else if text == "silent"@ {
            Some(PresenceState::Silent)
        } else if text == "deaf-on"@ {
            Some(PresenceState::DeafOn)
        } else if text == "deaf-off"@ {
            Some(PresenceState::DeafOff)
        } else {
            None
        }
    }

    /// How it is spelled on the wire.
    pub fn wire(self) -> (r: &'static str)
        ensures
            r@ == self.spelling(),
    {
        match self {
            PresenceState::Joined => "joined",
            PresenceState::Left => "left",
            PresenceState::On => "on",
            PresenceState::Off => "off",
            PresenceState::Speaking => "speaking",
            PresenceState::Silent => "silent",
            PresenceState::DeafOn => "deaf-on",
            PresenceState::DeafOff => "deaf-off",
        }
    }

    /// Read a spelling.
    pub fn parse(text: &str) -> (r: Option<Self>)
        ensures
            r == PresenceState::spelled(text@),
    {
        if same(text, "joined") {
            Some(PresenceState::Joined)
        } else if same(text, "left") {
            Some(PresenceState::Left)
        } else if same(text, "on") {
            Some(PresenceState::On)
        } else if same(text, "off") {
            Some(PresenceState::Off)
        } else if same(text, "speaking") {
            Some(PresenceState::Speaking)
        } else if same(text, "silent") {
            Some(PresenceState::Silent)
        } else if same(text, "deaf-on") {
            Some(PresenceState::DeafOn)
        } else if same(text, "deaf-off") {
            Some(PresenceState::DeafOff)
        } else {
            None
        }
    }

    /// Every value is what its spelling stands for.
    pub proof fn law_spelled(self)
        ensures
            PresenceState::spelled(self.spelling()) == Some(self),
    {
        reveal_strlit("joined");
        reveal_strlit("left");
        reveal_strlit("on");
        reveal_strlit("off");
        reveal_strlit("speaking");
        reveal_strlit("silent");
        reveal_strlit("deaf-on");
        reveal_strlit("deaf-off");
        assert("joined"@.len() == 6 && "joined"@[0] == 'j' && "joined"@[1] == 'o');
        assert("left"@.len() == 4 && "left"@[0] == 'l' && "left"@[1] == 'e');
        assert("on"@.len() == 2 && "on"@[0] == 'o' && "on"@[1] == 'n');
        assert("off"@.len() == 3 && "off"@[0] == 'o' && "off"@[1] == 'f');
        assert("speaking"@.len() == 8 && "speaking"@[0] == 's' && "speaking"@[1] == 'p');
        assert("silent"@.len() == 6 && "silent"@[0] == 's' && "silent"@[1] == 'i');
        assert("deaf-on"@.len() == 7 && "deaf-on"@[0] == 'd' && "deaf-on"@[6] == 'n');
        assert("deaf-off"@.len() == 8 && "deaf-off"@[0] == 'd' && "deaf-off"@[6] == 'f');
    }
}

/// A hint that maps one negotiated media line to the member that it belongs to.
#[derive(Debug, Clone, PartialEq, Eq)]
pub struct TrackHint {
    /// The media line that the hint names.
    pub mid: String,
    /// The member that the media line belongs to.
    pub member: String,
}

/// What a track hint says.
#[verifier::ext_equal]
pub struct TrackHintView {
    pub mid: Seq<char>,
    pub member: Seq<char>,
}

impl View for TrackHint {
    type V = TrackHintView;

    open spec fn view(&self) -> TrackHintView {
        TrackHintView { mid: self.mid@, member: self.member@ }
    }
}

impl DeepView for TrackHint {
    type V = TrackHintView;

    open spec fn deep_view(&self) -> TrackHintView {
        self@
    }
}

/// The credentials for a relay, which a `joined` hands us. They are short-lived, and nothing
/// refreshes them during a call.
#[derive(Debug, Clone, PartialEq, Eq)]
pub struct TurnCredentials {
    /// The server URLs to try, in order.
    pub urls: Vec<String>,
    /// The username.
    pub username: String,
    /// The password.
    pub password: String,
}

/// What credentials say.
#[verifier::ext_equal]
pub struct TurnCredentialsView {
    pub urls: Seq<Seq<char>>,
    pub username: Seq<char>,
    pub password: Seq<char>,
}

impl View for TurnCredentials {
    type V = TurnCredentialsView;

    open spec fn view(&self) -> TurnCredentialsView {
        TurnCredentialsView {
            urls: self.urls.deep_view(),
            username: self.username@,
            password: self.password@,
        }
    }
}

impl DeepView for TurnCredentials {
    type V = TurnCredentialsView;

    open spec fn deep_view(&self) -> TurnCredentialsView {
        self@
    }
}

impl TurnCredentials {
    pub(crate) fn copy(&self) -> (r: Self)
        ensures
            r@ == self@,
    {
        let urls = copy_strings(&self.urls, 0, self.urls.len());
        assert(urls.deep_view() =~= self.urls.deep_view());
        TurnCredentials { urls, username: self.username.clone(), password: self.password.clone() }
    }
}

/// What ties the chunks of one split `sdp` together.
#[derive(Debug, Clone, PartialEq, Eq)]
pub struct ChunkMeta {
    /// The id that every chunk of one split frame shares.
    pub id: String,
    /// The chunk's place, from zero.
    pub seq: u32,
    /// How many chunks there are.
    pub total: u32,
}

/// What a chunk's fields say.
#[verifier::ext_equal]
pub struct ChunkMetaView {
    pub id: Seq<char>,
    pub seq: u32,
    pub total: u32,
}

impl View for ChunkMeta {
    type V = ChunkMetaView;

    open spec fn view(&self) -> ChunkMetaView {
        ChunkMetaView { id: self.id@, seq: self.seq, total: self.total }
    }
}

impl DeepView for ChunkMeta {
    type V = ChunkMetaView;

    open spec fn deep_view(&self) -> ChunkMetaView {
        self@
    }
}

/// One `+obsidianirc/rtc` signalling frame. Each variant is one `type` on the wire.
#[derive(Debug, Clone, PartialEq, Eq)]
#[non_exhaustive]
#[allow(inconsistent_fields)]
pub enum Signal {
    /// Ask to join a voice room.
    Join {
        /// The channel to join.
        channel: String,
    },
    /// Leave a voice room.
    Leave {
        /// The channel to leave.
        channel: String,
    },
    /// The server admitted us to the room.
    Joined {
        /// Every current member's nick.
        members: Vec<String>,
        /// The room's kind, for a `$` channel.
        mode: Option<RoomKind>,
        /// The role granted to us, for a `$` channel.
        role: Option<Role>,
        /// Who publishes, for a `$` channel.
        streamers: Option<Vec<String>>,
        /// The credentials for this call.
        turn: Option<TurnCredentials>,
        /// Which media lines belong to whom.
        tracks: Option<Vec<TrackHint>>,
    },
    /// An SDP offer, from either side.
    Offer {
        /// The offer, or one slice of it when `chunk` is set.
        sdp: String,
        /// Which media lines belong to whom.
        tracks: Option<Vec<TrackHint>>,
        /// Set when this is one of several chunks.
        chunk: Option<ChunkMeta>,
    },
    /// An SDP answer, from either side.
    Answer {
        /// The answer, or one slice of it when `chunk` is set.
        sdp: String,
        /// Set when this is one of several chunks.
        chunk: Option<ChunkMeta>,
    },
    /// One ICE candidate, from either side.
    Ice {
        /// The candidate.
        cand: String,
        /// The media line it applies to.
        mid: Option<String>,
        /// The media line's index, when `mid` is absent.
        mlineidx: Option<u32>,
    },
    /// A room or participant state change.
    Presence {
        /// Who this is about.
        member: String,
        /// What changed.
        state: PresenceState,
        /// Which toggle, when the state is on or off.
        kind: Option<ToggleKind>,
        /// The role granted, when they joined a `$` room.
        role: Option<Role>,
    },
    /// Our microphone toggled.
    Mic {
        /// The new state.
        state: OnOff,
    },
    /// Our camera toggled.
    Video {
        /// The new state.
        state: OnOff,
    },
    /// Our screen share toggled.
    Screen {
        /// The new state.
        state: OnOff,
    },
    /// Our raised hand toggled.
    Hand {
        /// The new state.
        state: OnOff,
    },
    /// Our deafen toggled.
    Deaf {
        /// The new state.
        state: OnOff,
    },
    /// We started talking.
    Speaking,
    /// We stopped talking.
    Silent,
    /// A reaction with an emoji.
    React {
        /// Who reacted, on the broadcast only.
        member: Option<String>,
        /// The emoji.
        emoji: String,
    },
    /// Ask to promote someone to publisher.
    Promote {
        /// Whom.
        target: String,
    },
    /// Ask to demote someone to viewer.
    Demote {
        /// Whom.
        target: String,
    },
    /// The server's answer to a promotion or a demotion.
    Role {
        /// Whose role changed.
        member: String,
        /// Their new role.
        role: Role,
    },
    /// The server rejected the last request.
    Error {
        /// The reason, when there is one.
        error: Option<String>,
    },
}

/// What a frame says.
#[allow(inconsistent_fields)]
pub enum SignalView {
    Join { channel: Seq<char> },
    Leave { channel: Seq<char> },
    Joined {
        members: Seq<Seq<char>>,
        mode: Option<RoomKind>,
        role: Option<Role>,
        streamers: Option<Seq<Seq<char>>>,
        turn: Option<TurnCredentialsView>,
        tracks: Option<Seq<TrackHintView>>,
    },
    Offer { sdp: Seq<char>, tracks: Option<Seq<TrackHintView>>, chunk: Option<ChunkMetaView> },
    Answer { sdp: Seq<char>, chunk: Option<ChunkMetaView> },
    Ice { cand: Seq<char>, mid: Option<Seq<char>>, mlineidx: Option<u32> },
    Presence {
        member: Seq<char>,
        state: PresenceState,
        kind: Option<ToggleKind>,
        role: Option<Role>,
    },
    Mic { state: OnOff },
    Video { state: OnOff },
    Screen { state: OnOff },
    Hand { state: OnOff },
    Deaf { state: OnOff },
    Speaking,
    Silent,
    React { member: Option<Seq<char>>, emoji: Seq<char> },
    Promote { target: Seq<char> },
    Demote { target: Seq<char> },
    Role { member: Seq<char>, role: Role },
    Error { error: Option<Seq<char>> },
}

impl View for Signal {
    type V = SignalView;

    open spec fn view(&self) -> SignalView {
        match self {
            Signal::Join { channel } => SignalView::Join { channel: channel@ },
            Signal::Leave { channel } => SignalView::Leave { channel: channel@ },
            Signal::Joined { members, mode, role, streamers, turn, tracks } => SignalView::Joined {
                members: members.deep_view(),
                mode: *mode,
                role: *role,
                streamers: streamers.deep_view(),
                turn: turn.deep_view(),
                tracks: tracks.deep_view(),
            },
            Signal::Offer { sdp, tracks, chunk } => SignalView::Offer {
                sdp: sdp@,
                tracks: tracks.deep_view(),
                chunk: chunk.deep_view(),
            },
            Signal::Answer { sdp, chunk } => SignalView::Answer {
                sdp: sdp@,
                chunk: chunk.deep_view(),
            },
            Signal::Ice { cand, mid, mlineidx } => SignalView::Ice {
                cand: cand@,
                mid: mid.deep_view(),
                mlineidx: *mlineidx,
            },
            Signal::Presence { member, state, kind, role } => SignalView::Presence {
                member: member@,
                state: *state,
                kind: *kind,
                role: *role,
            },
            Signal::Mic { state } => SignalView::Mic { state: *state },
            Signal::Video { state } => SignalView::Video { state: *state },
            Signal::Screen { state } => SignalView::Screen { state: *state },
            Signal::Hand { state } => SignalView::Hand { state: *state },
            Signal::Deaf { state } => SignalView::Deaf { state: *state },
            Signal::Speaking => SignalView::Speaking,
            Signal::Silent => SignalView::Silent,
            Signal::React { member, emoji } => SignalView::React {
                member: member.deep_view(),
                emoji: emoji@,
            },
            Signal::Promote { target } => SignalView::Promote { target: target@ },
            Signal::Demote { target } => SignalView::Demote { target: target@ },
            Signal::Role { member, role } => SignalView::Role { member: member@, role: *role },
            Signal::Error { error } => SignalView::Error { error: error.deep_view() },
        }
    }
}

impl DeepView for Signal {
    type V = SignalView;

    open spec fn deep_view(&self) -> SignalView {
        self@
    }
}

/// Fields with a text at the end.
pub open spec fn with_text(
    fields: Seq<(Seq<char>, JsonView)>,
    key: Seq<char>,
    text: Seq<char>,
) -> Seq<(Seq<char>, JsonView)> {
    fields.push((key, JsonView::Str(text)))
}

/// Fields with a text at the end where there is one.
pub open spec fn with_text_opt(
    fields: Seq<(Seq<char>, JsonView)>,
    key: Seq<char>,
    text: Option<Seq<char>>,
) -> Seq<(Seq<char>, JsonView)> {
    match text {
        Some(text) => with_text(fields, key, text),
        None => fields,
    }
}

/// Fields with a number at the end.
pub open spec fn with_number(
    fields: Seq<(Seq<char>, JsonView)>,
    key: Seq<char>,
    n: u32,
) -> Seq<(Seq<char>, JsonView)> {
    fields.push((key, JsonView::Num(n as i64)))
}

/// Fields with a value at the end where there is one.
pub open spec fn with_value_opt(
    fields: Seq<(Seq<char>, JsonView)>,
    key: Seq<char>,
    value: Option<JsonView>,
) -> Seq<(Seq<char>, JsonView)> {
    match value {
        Some(value) => fields.push((key, value)),
        None => fields,
    }
}

/// Texts as an array.
pub open spec fn texts_value(texts: Seq<Seq<char>>) -> JsonView {
    JsonView::Array(texts.map_values(|s: Seq<char>| JsonView::Str(s)))
}

/// The object with no fields yet.
pub open spec fn no_fields() -> Seq<(Seq<char>, JsonView)> {
    Seq::empty()
}

/// A track hint as an object.
pub open spec fn track_value(track: TrackHintView) -> JsonView {
    JsonView::Object(
        with_text(with_text(no_fields(), "mid"@, track.mid), "member"@, track.member),
    )
}

/// Track hints as an array.
pub open spec fn tracks_value(tracks: Seq<TrackHintView>) -> JsonView {
    JsonView::Array(tracks.map_values(|t: TrackHintView| track_value(t)))
}

/// Credentials as an object.
pub open spec fn turn_value(turn: TurnCredentialsView) -> JsonView {
    JsonView::Object(
        with_text(
            with_text(
                no_fields().push(("urls"@, texts_value(turn.urls))),
                "username"@,
                turn.username,
            ),
            "password"@,
            turn.password,
        ),
    )
}

/// Fields with those of a chunk at the end where there is one.
pub open spec fn with_chunk(
    fields: Seq<(Seq<char>, JsonView)>,
    chunk: Option<ChunkMetaView>,
) -> Seq<(Seq<char>, JsonView)> {
    match chunk {
        Some(chunk) => with_number(
            with_number(with_text(fields, "id"@, chunk.id), "seq"@, chunk.seq),
            "total"@,
            chunk.total,
        ),
        None => fields,
    }
}

/// The fields of a frame on the wire, its `type` first.
pub open spec fn signal_fields(signal: SignalView) -> Seq<(Seq<char>, JsonView)> {
    let typed = |name: Seq<char>| with_text(no_fields(), "type"@, name);
    match signal {
        SignalView::Join { channel } => with_text(typed("join"@), "channel"@, channel),
        SignalView::Leave { channel } => with_text(typed("leave"@), "channel"@, channel),
        SignalView::Joined { members, mode, role, streamers, turn, tracks } => {
            let a = typed("joined"@).push(("members"@, texts_value(members)));
            let b = with_text_opt(
                a,
                "mode"@,
                match mode {
                    Some(m) => Some(m.spelling()),
                    None => None,
                },
            );
            let c = with_text_opt(
                b,
                "role"@,
                match role {
                    Some(r) => Some(r.spelling()),
                    None => None,
                },
            );
            let d = with_value_opt(
                c,
                "streamers"@,
                match streamers {
                    Some(s) => Some(texts_value(s)),
                    None => None,
                },
            );
            let e = with_value_opt(
                d,
                "turn"@,
                match turn {
                    Some(t) => Some(turn_value(t)),
                    None => None,
                },
            );
            with_value_opt(
                e,
                "tracks"@,
                match tracks {
                    Some(t) => Some(tracks_value(t)),
                    None => None,
                },
            )
        },
        SignalView::Offer { sdp, tracks, chunk } => with_chunk(
            with_value_opt(
                with_text(typed("offer"@), "sdp"@, sdp),
                "tracks"@,
                match tracks {
                    Some(t) => Some(tracks_value(t)),
                    None => None,
                },
            ),
            chunk,
        ),
        SignalView::Answer { sdp, chunk } => with_chunk(
            with_text(typed("answer"@), "sdp"@, sdp),
            chunk,
        ),
        SignalView::Ice { cand, mid, mlineidx } => {
            let a = with_text_opt(with_text(typed("ice"@), "cand"@, cand), "mid"@, mid);
            match mlineidx {
                Some(n) => with_number(a, "mlineidx"@, n),
                None => a,
            }
        },
        SignalView::Presence { member, state, kind, role } => {
            let a = with_text(
                with_text(typed("presence"@), "member"@, member),
                "state"@,
                state.spelling(),
            );
            let b = with_text_opt(
                a,
                "kind"@,
                match kind {
                    Some(k) => Some(k.spelling()),
                    None => None,
                },
            );
            with_text_opt(
                b,
                "role"@,
                match role {
                    Some(r) => Some(r.spelling()),
                    None => None,
                },
            )
        },
        SignalView::Mic { state } => with_text(typed("mic"@), "state"@, state.spelling()),
        SignalView::Video { state } => with_text(typed("video"@), "state"@, state.spelling()),
        SignalView::Screen { state } => with_text(typed("screen"@), "state"@, state.spelling()),
        SignalView::Hand { state } => with_text(typed("hand"@), "state"@, state.spelling()),
        SignalView::Deaf { state } => with_text(typed("deaf"@), "state"@, state.spelling()),
        SignalView::Speaking => with_text(typed("speaking"@), "state"@, "speaking"@),
        SignalView::Silent => with_text(typed("silent"@), "state"@, "silent"@),
        SignalView::React { member, emoji } => with_text(
            with_text_opt(typed("react"@), "member"@, member),
            "emoji"@,
            emoji,
        ),
        SignalView::Promote { target } => with_text(typed("promote"@), "target"@, target),
        SignalView::Demote { target } => with_text(typed("demote"@), "target"@, target),
        SignalView::Role { member, role } => with_text(
            with_text(typed("role"@), "member"@, member),
            "role"@,
            role.spelling(),
        ),
        SignalView::Error { error } => with_text_opt(typed("error"@), "error"@, error),
    }
}

/// A frame as text.
pub open spec fn encoded(signal: SignalView) -> Seq<char> {
    written(JsonView::Object(signal_fields(signal)))
}

/// The text of a field.
pub open spec fn text_field(value: JsonView, key: Seq<char>) -> Option<Seq<char>> {
    match field_in(value, key) {
        Some(v) => text_in(v),
        None => None,
    }
}

/// The number of a field.
pub open spec fn u32_field(value: JsonView, key: Seq<char>) -> Option<u32> {
    match field_in(value, key) {
        Some(v) => u32_in(v),
        None => None,
    }
}

/// The texts of an array, where all its items are texts.
pub open spec fn texts_in(value: JsonView) -> Option<Seq<Seq<char>>> {
    match value {
        JsonView::Array(items) => if forall|i: int|
            0 <= i < items.len() ==> text_in(#[trigger] items[i]) is Some {
            Some(items.map_values(|v: JsonView| text_in(v)->0))
        } else {
            None
        },
        _ => None,
    }
}

/// The track hint of an object.
pub open spec fn track_in(value: JsonView) -> Option<TrackHintView> {
    match (text_field(value, "mid"@), text_field(value, "member"@)) {
        (Some(mid), Some(member)) => Some(TrackHintView { mid, member }),
        _ => None,
    }
}

/// The track hints of an array, where all its items are track hints.
pub open spec fn tracks_in(value: JsonView) -> Option<Seq<TrackHintView>> {
    match value {
        JsonView::Array(items) => if forall|i: int|
            0 <= i < items.len() ==> track_in(#[trigger] items[i]) is Some {
            Some(items.map_values(|v: JsonView| track_in(v)->0))
        } else {
            None
        },
        _ => None,
    }
}

/// The credentials of an object. A single URL may stand for a list of one.
pub open spec fn turn_in(value: JsonView) -> Option<TurnCredentialsView> {
    match (
        field_in(value, "urls"@),
        text_field(value, "username"@),
        text_field(value, "password"@),
    ) {
        (Some(urls), Some(username), Some(password)) => match (text_in(urls), texts_in(urls)) {
            (Some(url), _) => Some(TurnCredentialsView { urls: seq![url], username, password }),
            (None, Some(urls)) => Some(TurnCredentialsView { urls, username, password }),
            (None, None) => None,
        },
        _ => None,
    }
}

/// The chunk fields of a frame, where it has all three.
pub open spec fn chunk_in(value: JsonView) -> Option<ChunkMetaView> {
    match (text_field(value, "id"@), u32_field(value, "seq"@), u32_field(value, "total"@)) {
        (Some(id), Some(seq), Some(total)) => Some(ChunkMetaView { id, seq, total }),
        _ => None,
    }
}

/// The toggle's state in a frame.
pub open spec fn on_off_in(value: JsonView) -> Option<OnOff> {
    match text_field(value, "state"@) {
        Some(text) => OnOff::spelled(text),
        None => None,
    }
}

/// The role in a frame, where it has one.
pub open spec fn role_in(value: JsonView) -> Option<Role> {
    match text_field(value, "role"@) {
        Some(text) => Role::spelled(text),
        None => None,
    }
}

/// The track hints in a frame, where it has them.
pub open spec fn tracks_field(value: JsonView) -> Option<Seq<TrackHintView>> {
    match field_in(value, "tracks"@) {
        Some(v) => tracks_in(v),
        None => None,
    }
}

/// The `joined` frame that an object is.
pub open spec fn joined_in(value: JsonView) -> Option<SignalView> {
    match field_in(value, "members"@) {
        None => None,
        Some(v) => match texts_in(v) {
            None => None,
            Some(members) => Some(
                SignalView::Joined {
                    members,
                    mode: match text_field(value, "mode"@) {
                        Some(text) => RoomKind::spelled(text),
                        None => None,
                    },
                    role: role_in(value),
                    streamers: match field_in(value, "streamers"@) {
                        Some(v) => texts_in(v),
                        None => None,
                    },
                    turn: match field_in(value, "turn"@) {
                        Some(v) => turn_in(v),
                        None => None,
                    },
                    tracks: tracks_field(value),
                },
            ),
        },
    }
}

/// The `presence` frame that an object is.
pub open spec fn presence_in(value: JsonView) -> Option<SignalView> {
    match (text_field(value, "member"@), text_field(value, "state"@)) {
        (Some(member), Some(text)) => match PresenceState::spelled(text) {
            Some(state) => Some(
                SignalView::Presence {
                    member,
                    state,
                    kind: match text_field(value, "kind"@) {
                        Some(text) => ToggleKind::spelled(text),
                        None => None,
                    },
                    role: role_in(value),
                },
            ),
            None => None,
        },
        _ => None,
    }
}

/// The frame that an object is. Nothing where its `type` is unknown, or where it lacks a field that
/// its `type` requires.
pub open spec fn signal_in(value: JsonView) -> Option<SignalView> {
    match text_field(value, "type"@) {
        None => None,
        Some(kind) => if kind == "join"@ {
            match text_field(value, "channel"@) {
                Some(channel) => Some(SignalView::Join { channel }),
                None => None,
            }
        } else if kind == "leave"@ {
            match text_field(value, "channel"@) {
                Some(channel) => Some(SignalView::Leave { channel }),
                None => None,
            }
        } else if kind == "joined"@ {
            joined_in(value)
        } else if kind == "offer"@ {
            match text_field(value, "sdp"@) {
                Some(sdp) => Some(
                    SignalView::Offer { sdp, tracks: tracks_field(value), chunk: chunk_in(value) },
                ),
                None => None,
            }
        } else if kind == "answer"@ {
            match text_field(value, "sdp"@) {
                Some(sdp) => Some(SignalView::Answer { sdp, chunk: chunk_in(value) }),
                None => None,
            }
        } else if kind == "ice"@ {
            match text_field(value, "cand"@) {
                Some(cand) => Some(
                    SignalView::Ice {
                        cand,
                        mid: text_field(value, "mid"@),
                        mlineidx: u32_field(value, "mlineidx"@),
                    },
                ),
                None => None,
            }
        } else if kind == "presence"@ {
            presence_in(value)
        } else if kind == "mic"@ {
            match on_off_in(value) {
                Some(state) => Some(SignalView::Mic { state }),
                None => None,
            }
        } else if kind == "video"@ {
            match on_off_in(value) {
                Some(state) => Some(SignalView::Video { state }),
                None => None,
            }
        } else if kind == "screen"@ {
            match on_off_in(value) {
                Some(state) => Some(SignalView::Screen { state }),
                None => None,
            }
        } else if kind == "hand"@ {
            match on_off_in(value) {
                Some(state) => Some(SignalView::Hand { state }),
                None => None,
            }
        } else if kind == "deaf"@ {
            match on_off_in(value) {
                Some(state) => Some(SignalView::Deaf { state }),
                None => None,
            }
        } else if kind == "speaking"@ {
            Some(SignalView::Speaking)
        } else if kind == "silent"@ {
            Some(SignalView::Silent)
        } else if kind == "react"@ {
            match text_field(value, "emoji"@) {
                Some(emoji) => Some(
                    SignalView::React { member: text_field(value, "member"@), emoji },
                ),
                None => None,
            }
        } else if kind == "promote"@ {
            match text_field(value, "target"@) {
                Some(target) => Some(SignalView::Promote { target }),
                None => None,
            }
        } else if kind == "demote"@ {
            match text_field(value, "target"@) {
                Some(target) => Some(SignalView::Demote { target }),
                None => None,
            }
        } else if kind == "role"@ {
            match (text_field(value, "member"@), role_in(value)) {
                (Some(member), Some(role)) => Some(SignalView::Role { member, role }),
                _ => None,
            }
        } else if kind == "error"@ {
            Some(SignalView::Error { error: text_field(value, "error"@) })
        } else {
            None
        },
    }
}

/// The frame that a text holds.
pub open spec fn decoded(text: Seq<char>) -> Option<SignalView> {
    match read(text) {
        Some(value) => signal_in(value),
        None => None,
    }
}

/// What tells the names of frames and of their fields apart: their length and how they start.
pub(crate) proof fn lemma_names()
    ensures
        "join"@.len() == 4 && "join"@[0] == 'j' && "join"@[1] == 'o',
        "leave"@.len() == 5 && "leave"@[0] == 'l' && "leave"@[1] == 'e',
        "joined"@.len() == 6 && "joined"@[0] == 'j' && "joined"@[1] == 'o',
        "offer"@.len() == 5 && "offer"@[0] == 'o' && "offer"@[1] == 'f',
        "answer"@.len() == 6 && "answer"@[0] == 'a' && "answer"@[1] == 'n',
        "ice"@.len() == 3 && "ice"@[0] == 'i' && "ice"@[1] == 'c' && "ice"@[2] == 'e',
        "presence"@.len() == 8 && "presence"@[0] == 'p' && "presence"@[1] == 'r',
        "mic"@.len() == 3 && "mic"@[0] == 'm' && "mic"@[1] == 'i' && "mic"@[2] == 'c',
        "video"@.len() == 5 && "video"@[0] == 'v' && "video"@[1] == 'i',
        "screen"@.len() == 6 && "screen"@[0] == 's' && "screen"@[1] == 'c',
        "hand"@.len() == 4 && "hand"@[0] == 'h' && "hand"@[1] == 'a',
        "deaf"@.len() == 4 && "deaf"@[0] == 'd' && "deaf"@[1] == 'e',
        "speaking"@.len() == 8 && "speaking"@[0] == 's' && "speaking"@[1] == 'p',
        "silent"@.len() == 6 && "silent"@[0] == 's' && "silent"@[1] == 'i',
        "react"@.len() == 5 && "react"@[0] == 'r' && "react"@[1] == 'e',
        "promote"@.len() == 7 && "promote"@[0] == 'p' && "promote"@[1] == 'r',
        "demote"@.len() == 6 && "demote"@[0] == 'd' && "demote"@[1] == 'e',
        "role"@.len() == 4 && "role"@[0] == 'r' && "role"@[1] == 'o',
        "error"@.len() == 5 && "error"@[0] == 'e' && "error"@[1] == 'r',
        "type"@.len() == 4 && "type"@[0] == 't' && "type"@[1] == 'y',
        "channel"@.len() == 7 && "channel"@[0] == 'c' && "channel"@[1] == 'h',
        "members"@.len() == 7 && "members"@[0] == 'm' && "members"@[1] == 'e',
        "mode"@.len() == 4 && "mode"@[0] == 'm' && "mode"@[1] == 'o',
        "streamers"@.len() == 9 && "streamers"@[0] == 's' && "streamers"@[1] == 't',
        "turn"@.len() == 4 && "turn"@[0] == 't' && "turn"@[1] == 'u',
        "tracks"@.len() == 6 && "tracks"@[0] == 't' && "tracks"@[1] == 'r',
        "sdp"@.len() == 3 && "sdp"@[0] == 's' && "sdp"@[1] == 'd' && "sdp"@[2] == 'p',
        "id"@.len() == 2 && "id"@[0] == 'i' && "id"@[1] == 'd',
        "seq"@.len() == 3 && "seq"@[0] == 's' && "seq"@[1] == 'e' && "seq"@[2] == 'q',
        "total"@.len() == 5 && "total"@[0] == 't' && "total"@[1] == 'o',
        "cand"@.len() == 4 && "cand"@[0] == 'c' && "cand"@[1] == 'a',
        "mid"@.len() == 3 && "mid"@[0] == 'm' && "mid"@[1] == 'i' && "mid"@[2] == 'd',
        "mlineidx"@.len() == 8 && "mlineidx"@[0] == 'm' && "mlineidx"@[1] == 'l',
        "member"@.len() == 6 && "member"@[0] == 'm' && "member"@[1] == 'e',
        "state"@.len() == 5 && "state"@[0] == 's' && "state"@[1] == 't',
        "kind"@.len() == 4 && "kind"@[0] == 'k' && "kind"@[1] == 'i',
        "emoji"@.len() == 5 && "emoji"@[0] == 'e' && "emoji"@[1] == 'm',
        "target"@.len() == 6 && "target"@[0] == 't' && "target"@[1] == 'a',
        "urls"@.len() == 4 && "urls"@[0] == 'u' && "urls"@[1] == 'r',
        "username"@.len() == 8 && "username"@[0] == 'u' && "username"@[1] == 's',
        "password"@.len() == 8 && "password"@[0] == 'p' && "password"@[1] == 'a',
{
    reveal_strlit("join");
    reveal_strlit("leave");
    reveal_strlit("joined");
    reveal_strlit("offer");
    reveal_strlit("answer");
    reveal_strlit("ice");
    reveal_strlit("presence");
    reveal_strlit("mic");
    reveal_strlit("video");
    reveal_strlit("screen");
    reveal_strlit("hand");
    reveal_strlit("deaf");
    reveal_strlit("speaking");
    reveal_strlit("silent");
    reveal_strlit("react");
    reveal_strlit("promote");
    reveal_strlit("demote");
    reveal_strlit("role");
    reveal_strlit("error");
    reveal_strlit("type");
    reveal_strlit("channel");
    reveal_strlit("members");
    reveal_strlit("mode");
    reveal_strlit("streamers");
    reveal_strlit("turn");
    reveal_strlit("tracks");
    reveal_strlit("sdp");
    reveal_strlit("id");
    reveal_strlit("seq");
    reveal_strlit("total");
    reveal_strlit("cand");
    reveal_strlit("mid");
    reveal_strlit("mlineidx");
    reveal_strlit("member");
    reveal_strlit("state");
    reveal_strlit("kind");
    reveal_strlit("emoji");
    reveal_strlit("target");
    reveal_strlit("urls");
    reveal_strlit("username");
    reveal_strlit("password");
}

/// Looking up a field is not disturbed by one put at the end, unless it was missing.
proof fn lemma_pushed(fields: Seq<(Seq<char>, JsonView)>, key: Seq<char>, value: JsonView)
    ensures
        forall|k: Seq<char>| #[trigger]
            first_field(fields.push((key, value)), k) == (match first_field(fields, k) {
                Some(v) => Some(v),
                None => if k == key {
                    Some(value)
                } else {
                    None
                },
            }),
    decreases fields.len(),
{
    let all = fields.push((key, value));
    if fields.len() == 0 {
        assert forall|k: Seq<char>| #[trigger] first_field(all, k) == (if k == key {
            Some(value)
        } else {
            None
        }) by {
            assert(all.drop_first() =~= Seq::empty());
            reveal_with_fuel(first_field, 2);
        }
    } else {
        let rest = fields.drop_first();
        lemma_pushed(rest, key, value);
        assert(all.drop_first() =~= rest.push((key, value)));
        assert(all[0] == fields[0]);
        assert forall|k: Seq<char>| #[trigger]
            first_field(all, k) == (match first_field(fields, k) {
                Some(v) => Some(v),
                None => if k == key {
                    Some(value)
                } else {
                    None
                },
            }) by {
            assert(first_field(rest.push((key, value)), k) == first_field(all.drop_first(), k));
        }
    }
}

proof fn lemma_texts(texts: Seq<Seq<char>>)
    ensures
        texts_in(texts_value(texts)) == Some(texts),
        text_in(texts_value(texts)) is None,
{
    let items = texts.map_values(|s: Seq<char>| JsonView::Str(s));
    assert(items.map_values(|v: JsonView| text_in(v)->0) =~= texts);
}

proof fn lemma_track(track: TrackHintView)
    ensures
        track_in(track_value(track)) == Some(track),
{
    lemma_names();
    lemma_pushed(no_fields(), "mid"@, JsonView::Str(track.mid));
    lemma_pushed(
        with_text(no_fields(), "mid"@, track.mid),
        "member"@,
        JsonView::Str(track.member),
    );
}

proof fn lemma_tracks(tracks: Seq<TrackHintView>)
    ensures
        tracks_in(tracks_value(tracks)) == Some(tracks),
{
    let items = tracks.map_values(|t: TrackHintView| track_value(t));
    assert forall|i: int| 0 <= i < items.len() implies track_in(#[trigger] items[i]) == Some(
        tracks[i],
    ) by {
        lemma_track(tracks[i]);
    }
    assert(items.map_values(|v: JsonView| track_in(v)->0) =~= tracks);
}

proof fn lemma_turn(turn: TurnCredentialsView)
    ensures
        turn_in(turn_value(turn)) == Some(turn),
{
    lemma_names();
    lemma_texts(turn.urls);
    let a = no_fields().push(("urls"@, texts_value(turn.urls)));
    let b = with_text(a, "username"@, turn.username);
    lemma_pushed(no_fields(), "urls"@, texts_value(turn.urls));
    lemma_pushed(a, "username"@, JsonView::Str(turn.username));
    lemma_pushed(b, "password"@, JsonView::Str(turn.password));
}

/// Looking up a field in a frame that starts with its `type`.
proof fn lemma_typed(name: Seq<char>)
    ensures
        forall|k: Seq<char>| #[trigger]
            first_field(with_text(no_fields(), "type"@, name), k) == (if k == "type"@ {
                Some(JsonView::Str(name))
            } else {
                None
            }),
{
    lemma_pushed(no_fields(), "type"@, JsonView::Str(name));
}

proof fn lemma_chunk(fields: Seq<(Seq<char>, JsonView)>, chunk: Option<ChunkMetaView>)
    requires
        first_field(fields, "id"@) is None,
        first_field(fields, "seq"@) is None,
        first_field(fields, "total"@) is None,
    ensures
        chunk_in(JsonView::Object(with_chunk(fields, chunk))) == chunk,
        forall|k: Seq<char>|
            k != "id"@ && k != "seq"@ && k != "total"@ ==> #[trigger] first_field(
                with_chunk(fields, chunk),
                k,
            ) == first_field(fields, k),
{
    lemma_names();
    if let Some(c) = chunk {
        let a = with_text(fields, "id"@, c.id);
        let b = with_number(a, "seq"@, c.seq);
        lemma_pushed(fields, "id"@, JsonView::Str(c.id));
        lemma_pushed(a, "seq"@, JsonView::Num(c.seq as i64));
        lemma_pushed(b, "total"@, JsonView::Num(c.total as i64));
    }
}

proof fn lemma_joined_read(signal: SignalView)
    requires
        signal is Joined,
    ensures
        signal_in(JsonView::Object(signal_fields(signal))) == Some(signal),
{
    lemma_names();
    if let SignalView::Joined { members, mode, role, streamers, turn, tracks } = signal {
        let z = with_text(no_fields(), "type"@, "joined"@);
        lemma_typed("joined"@);
        lemma_texts(members);
        let a = z.push(("members"@, texts_value(members)));
        lemma_pushed(z, "members"@, texts_value(members));
        let b = match mode {
            Some(m) => {
                m.law_spelled();
                lemma_pushed(a, "mode"@, JsonView::Str(m.spelling()));
                with_text(a, "mode"@, m.spelling())
            },
            None => a,
        };
        let c = match role {
            Some(r) => {
                r.law_spelled();
                lemma_pushed(b, "role"@, JsonView::Str(r.spelling()));
                with_text(b, "role"@, r.spelling())
            },
            None => b,
        };
        let d = match streamers {
            Some(s) => {
                lemma_texts(s);
                lemma_pushed(c, "streamers"@, texts_value(s));
                c.push(("streamers"@, texts_value(s)))
            },
            None => c,
        };
        let e = match turn {
            Some(t) => {
                lemma_turn(t);
                lemma_pushed(d, "turn"@, turn_value(t));
                d.push(("turn"@, turn_value(t)))
            },
            None => d,
        };
        match tracks {
            Some(t) => {
                lemma_tracks(t);
                lemma_pushed(e, "tracks"@, tracks_value(t));
            },
            None => {},
        }
    }
}

proof fn lemma_sdp_read(signal: SignalView)
    requires
        signal is Offer || signal is Answer,
    ensures
        signal_in(JsonView::Object(signal_fields(signal))) == Some(signal),
{
    lemma_names();
    match signal {
        SignalView::Offer { sdp, tracks, chunk } => {
            let z = with_text(no_fields(), "type"@, "offer"@);
            lemma_typed("offer"@);
            let a = with_text(z, "sdp"@, sdp);
            lemma_pushed(z, "sdp"@, JsonView::Str(sdp));
            let b = match tracks {
                Some(t) => {
                    lemma_tracks(t);
                    lemma_pushed(a, "tracks"@, tracks_value(t));
                    a.push(("tracks"@, tracks_value(t)))
                },
                None => a,
            };
            lemma_chunk(b, chunk);
        },
        SignalView::Answer { sdp, chunk } => {
            let z = with_text(no_fields(), "type"@, "answer"@);
            lemma_typed("answer"@);
            lemma_pushed(z, "sdp"@, JsonView::Str(sdp));
            lemma_chunk(with_text(z, "sdp"@, sdp), chunk);
        },
        _ => {},
    }
}

proof fn lemma_state_read(signal: SignalView)
    requires
        signal is Ice || signal is Presence || signal is Role || signal is React,
    ensures
        signal_in(JsonView::Object(signal_fields(signal))) == Some(signal),
{
    lemma_names();
    match signal {
        SignalView::Ice { cand, mid, mlineidx } => {
            let z = with_text(no_fields(), "type"@, "ice"@);
            lemma_typed("ice"@);
            let a = with_text(z, "cand"@, cand);
            lemma_pushed(z, "cand"@, JsonView::Str(cand));
            let b = match mid {
                Some(m) => {
                    lemma_pushed(a, "mid"@, JsonView::Str(m));
                    with_text(a, "mid"@, m)
                },
                None => a,
            };
            if let Some(n) = mlineidx {
                lemma_pushed(b, "mlineidx"@, JsonView::Num(n as i64));
            }
        },
        SignalView::Presence { member, state, kind, role } => {
            let z = with_text(no_fields(), "type"@, "presence"@);
            lemma_typed("presence"@);
            let a = with_text(z, "member"@, member);
            lemma_pushed(z, "member"@, JsonView::Str(member));
            let b = with_text(a, "state"@, state.spelling());
            state.law_spelled();
            lemma_pushed(a, "state"@, JsonView::Str(state.spelling()));
            let c = match kind {
                Some(k) => {
                    k.law_spelled();
                    lemma_pushed(b, "kind"@, JsonView::Str(k.spelling()));
                    with_text(b, "kind"@, k.spelling())
                },
                None => b,
            };
            if let Some(r) = role {
                r.law_spelled();
                lemma_pushed(c, "role"@, JsonView::Str(r.spelling()));
            }
        },
        SignalView::Role { member, role } => {
            let z = with_text(no_fields(), "type"@, "role"@);
            lemma_typed("role"@);
            let a = with_text(z, "member"@, member);
            lemma_pushed(z, "member"@, JsonView::Str(member));
            role.law_spelled();
            lemma_pushed(a, "role"@, JsonView::Str(role.spelling()));
        },
        SignalView::React { member, emoji } => {
            let z = with_text(no_fields(), "type"@, "react"@);
            lemma_typed("react"@);
            let a = match member {
                Some(m) => {
                    lemma_pushed(z, "member"@, JsonView::Str(m));
                    with_text(z, "member"@, m)
                },
                None => z,
            };
            lemma_pushed(a, "emoji"@, JsonView::Str(emoji));
        },
        _ => {},
    }
}

proof fn lemma_one_field_read(signal: SignalView, name: Seq<char>, key: Seq<char>, text: Seq<char>)
    requires
        signal_fields(signal) == with_text(
            with_text(no_fields(), "type"@, name),
            key,
            text,
        ),
        key != "type"@,
    ensures
        text_field(JsonView::Object(signal_fields(signal)), "type"@) == Some(name),
        text_field(JsonView::Object(signal_fields(signal)), key) == Some(text),
{
    lemma_typed(name);
    lemma_pushed(with_text(no_fields(), "type"@, name), key, JsonView::Str(text));
}

/// Every frame's fields are read back as that frame.
pub proof fn lemma_fields_read(signal: SignalView)
    ensures
        signal_in(JsonView::Object(signal_fields(signal))) == Some(signal),
{
    lemma_names();
    match signal {
        SignalView::Joined { .. } => lemma_joined_read(signal),
        SignalView::Offer { .. } => lemma_sdp_read(signal),
        SignalView::Answer { .. } => lemma_sdp_read(signal),
        SignalView::Ice { .. } => lemma_state_read(signal),
        SignalView::Presence { .. } => lemma_state_read(signal),
        SignalView::Role { .. } => lemma_state_read(signal),
        SignalView::React { .. } => lemma_state_read(signal),
        SignalView::Join { channel } => lemma_one_field_read(signal, "join"@, "channel"@, channel),
        SignalView::Leave { channel } => lemma_one_field_read(signal, "leave"@, "channel"@, channel),
        SignalView::Mic { state } => {
            state.law_spelled();
            lemma_one_field_read(signal, "mic"@, "state"@, state.spelling());
        },
        SignalView::Video { state } => {
            state.law_spelled();
            lemma_one_field_read(signal, "video"@, "state"@, state.spelling());
        },
        SignalView::Screen { state } => {
            state.law_spelled();
            lemma_one_field_read(signal, "screen"@, "state"@, state.spelling());
        },
        SignalView::Hand { state } => {
            state.law_spelled();
            lemma_one_field_read(signal, "hand"@, "state"@, state.spelling());
        },
        SignalView::Deaf { state } => {
            state.law_spelled();
            lemma_one_field_read(signal, "deaf"@, "state"@, state.spelling());
        },
        SignalView::Speaking => lemma_one_field_read(signal, "speaking"@, "state"@, "speaking"@),
        SignalView::Silent => lemma_one_field_read(signal, "silent"@, "state"@, "silent"@),
        SignalView::Promote { target } => lemma_one_field_read(
            signal,
            "promote"@,
            "target"@,
            target,
        ),
        SignalView::Demote { target } => lemma_one_field_read(signal, "demote"@, "target"@, target),
        SignalView::Error { error } => {
            lemma_typed("error"@);
            if let Some(text) = error {
                lemma_one_field_read(signal, "error"@, "error"@, text);
            }
        },
    }
}

/// What a frame encodes to decodes to that frame.
pub proof fn law_decode_encoded(signal: SignalView)
    ensures
        decoded(encoded(signal)) == Some(signal),
{
    crate::json::law_read_back(JsonView::Object(signal_fields(signal)));
    lemma_fields_read(signal);
}

fn push_value(fields: &mut Vec<(String, Json)>, key: &str, value: Json)
    ensures
        field_views(final(fields)@) == field_views(old(fields)@).push((key@, value@)),
{
    let ghost was = fields@;
    fields.push((key.to_owned(), value));
    assert(fields@.drop_last() =~= was);
}

fn push_text(fields: &mut Vec<(String, Json)>, key: &str, text: &str)
    ensures
        field_views(final(fields)@) == with_text(field_views(old(fields)@), key@, text@),
{
    push_value(fields, key, Json::Str(text.to_owned()));
}

fn push_number(fields: &mut Vec<(String, Json)>, key: &str, n: u32)
    ensures
        field_views(final(fields)@) == with_number(field_views(old(fields)@), key@, n),
{
    push_value(fields, key, Json::Num(n as i64));
}

fn push_chunk(fields: &mut Vec<(String, Json)>, chunk: &Option<ChunkMeta>)
    ensures
        field_views(final(fields)@) == with_chunk(field_views(old(fields)@), chunk.deep_view()),
{
    if let Some(chunk) = chunk {
        push_text(fields, "id", &chunk.id);
        push_number(fields, "seq", chunk.seq);
        push_number(fields, "total", chunk.total);
    }
}

fn texts_json(texts: &Vec<String>) -> (r: Json)
    ensures
        r@ == texts_value(texts.deep_view()),
{
    let mut items: Vec<Json> = Vec::new();
    let ghost all = texts.deep_view().map_values(|s: Seq<char>| JsonView::Str(s));
    let mut i: usize = 0;
    assert(views(items@) =~= all.take(0));
    while i < texts.len()
        invariant
            i <= texts@.len() == all.len(),
            all == texts.deep_view().map_values(|s: Seq<char>| JsonView::Str(s)),
            views(items@) == all.take(i as int),
        decreases texts@.len() - i,
    {
        let ghost was = items@;
        let item = Json::Str(texts[i].clone());
        assert(item@ == all[i as int]);
        items.push(item);
        assert(items@.drop_last() =~= was);
        i = i + 1;
        assert(views(items@) =~= all.take(i as int));
    }
    assert(all.take(all.len() as int) =~= all);
    Json::Array(items)
}

fn tracks_json(tracks: &Vec<TrackHint>) -> (r: Json)
    ensures
        r@ == tracks_value(tracks.deep_view()),
{
    let mut items: Vec<Json> = Vec::new();
    let ghost all = tracks.deep_view().map_values(|t: TrackHintView| track_value(t));
    let mut i: usize = 0;
    assert(views(items@) =~= all.take(0));
    while i < tracks.len()
        invariant
            i <= tracks@.len() == all.len(),
            all == tracks.deep_view().map_values(|t: TrackHintView| track_value(t)),
            views(items@) == all.take(i as int),
        decreases tracks@.len() - i,
    {
        let mut fields: Vec<(String, Json)> = Vec::new();
        push_text(&mut fields, "mid", &tracks[i].mid);
        push_text(&mut fields, "member", &tracks[i].member);
        let ghost was = items@;
        let item = Json::Object(fields);
        assert(item@ == all[i as int]);
        items.push(item);
        assert(items@.drop_last() =~= was);
        i = i + 1;
        assert(views(items@) =~= all.take(i as int));
    }
    assert(all.take(all.len() as int) =~= all);
    Json::Array(items)
}

fn turn_json(turn: &TurnCredentials) -> (r: Json)
    ensures
        r@ == turn_value(turn@),
{
    let mut fields: Vec<(String, Json)> = Vec::new();
    push_value(&mut fields, "urls", texts_json(&turn.urls));
    push_text(&mut fields, "username", &turn.username);
    push_text(&mut fields, "password", &turn.password);
    Json::Object(fields)
}

fn typed(name: &str) -> (r: Vec<(String, Json)>)
    ensures
        field_views(r@) == with_text(no_fields(), "type"@, name@),
{
    let mut fields: Vec<(String, Json)> = Vec::new();
    push_text(&mut fields, "type", name);
    fields
}

impl Signal {
    /// Encode this frame as the JSON object that travels on the wire.
    pub fn to_json(&self) -> (r: String)
        ensures
            r@ == encoded(self@),
    {
        let mut out = String::new();
        Json::Object(self.wire_fields()).write(&mut out);
        assert(out@ =~= encoded(self@));
        out
    }

    /// Decode one wire JSON object into a frame. Nothing for a text that is no JSON, for an object
    /// without a field that its `type` requires, and for a `type` that is not known.
    pub fn from_json(text: &str) -> (r: Option<Self>)
        ensures
            r.deep_view() == decoded(text@),
    {
        match Json::parse(text) {
            Some(value) => Self::from_value(&value),
            None => None,
        }
    }

    fn joined_fields(
        members: &Vec<String>,
        mode: Option<RoomKind>,
        role: Option<Role>,
        streamers: &Option<Vec<String>>,
        turn: &Option<TurnCredentials>,
        tracks: &Option<Vec<TrackHint>>,
    ) -> (r: Vec<(String, Json)>)
        ensures
            field_views(r@) == signal_fields(
                SignalView::Joined {
                    members: members.deep_view(),
                    mode,
                    role,
                    streamers: streamers.deep_view(),
                    turn: turn.deep_view(),
                    tracks: tracks.deep_view(),
                },
            ),
    {
        let mut fields = typed("joined");
        push_value(&mut fields, "members", texts_json(members));
        if let Some(mode) = mode {
            push_text(&mut fields, "mode", mode.wire());
        }
        if let Some(role) = role {
            push_text(&mut fields, "role", role.wire());
        }
        if let Some(streamers) = streamers {
            push_value(&mut fields, "streamers", texts_json(streamers));
        }
        if let Some(turn) = turn {
            push_value(&mut fields, "turn", turn_json(turn));
        }
        if let Some(tracks) = tracks {
            push_value(&mut fields, "tracks", tracks_json(tracks));
        }
        fields
    }

    fn wire_fields(&self) -> (r: Vec<(String, Json)>)
        ensures
            field_views(r@) == signal_fields(self@),
    {
        match self {
            Signal::Join { channel } => {
                let mut fields = typed("join");
                push_text(&mut fields, "channel", channel);
                fields
            },
            Signal::Leave { channel } => {
                let mut fields = typed("leave");
                push_text(&mut fields, "channel", channel);
                fields
            },
            Signal::Joined { members, mode, role, streamers, turn, tracks } => Self::joined_fields(
                members,
                *mode,
                *role,
                streamers,
                turn,
                tracks,
            ),
            Signal::Offer { sdp, tracks, chunk } => {
                let mut fields = typed("offer");
                push_text(&mut fields, "sdp", sdp);
                if let Some(tracks) = tracks {
                    push_value(&mut fields, "tracks", tracks_json(tracks));
                }
                push_chunk(&mut fields, chunk);
                fields
            },
            Signal::Answer { sdp, chunk } => {
                let mut fields = typed("answer");
                push_text(&mut fields, "sdp", sdp);
                push_chunk(&mut fields, chunk);
                fields
            },
            Signal::Ice { cand, mid, mlineidx } => {
                let mut fields = typed("ice");
                push_text(&mut fields, "cand", cand);
                if let Some(mid) = mid {
                    push_text(&mut fields, "mid", mid);
                }
                if let Some(n) = mlineidx {
                    push_number(&mut fields, "mlineidx", *n);
                }
                fields
            },
            Signal::Presence { member, state, kind, role } => {
                let mut fields = typed("presence");
                push_text(&mut fields, "member", member);
                push_text(&mut fields, "state", state.wire());
                if let Some(kind) = kind {
                    push_text(&mut fields, "kind", kind.wire());
                }
                if let Some(role) = role {
                    push_text(&mut fields, "role", role.wire());
                }
                fields
            },
            Signal::Mic { state } => {
                let mut fields = typed("mic");
                push_text(&mut fields, "state", state.wire());
                fields
            },
            Signal::Video { state } => {
                let mut fields = typed("video");
                push_text(&mut fields, "state", state.wire());
                fields
            },
            Signal::Screen { state } => {
                let mut fields = typed("screen");
                push_text(&mut fields, "state", state.wire());
                fields
            },
            Signal::Hand { state } => {
                let mut fields = typed("hand");
                push_text(&mut fields, "state", state.wire());
                fields
            },
            Signal::Deaf { state } => {
                let mut fields = typed("deaf");
                push_text(&mut fields, "state", state.wire());
                fields
            },
            Signal::Speaking => {
                let mut fields = typed("speaking");
                push_text(&mut fields, "state", "speaking");
                fields
            },
            Signal::Silent => {
                let mut fields = typed("silent");
                push_text(&mut fields, "state", "silent");
                fields
            },
            Signal::React { member, emoji } => {
                let mut fields = typed("react");
                if let Some(member) = member {
                    push_text(&mut fields, "member", member);
                }
                push_text(&mut fields, "emoji", emoji);
                fields
            },
            Signal::Promote { target } => {
                let mut fields = typed("promote");
                push_text(&mut fields, "target", target);
                fields
            },
            Signal::Demote { target } => {
                let mut fields = typed("demote");
                push_text(&mut fields, "target", target);
                fields
            },
            Signal::Role { member, role } => {
                let mut fields = typed("role");
                push_text(&mut fields, "member", member);
                push_text(&mut fields, "role", role.wire());
                fields
            },
            Signal::Error { error } => {
                let mut fields = typed("error");
                if let Some(error) = error {
                    push_text(&mut fields, "error", error);
                }
                fields
            },
        }
    }

    fn from_value(value: &Json) -> (r: Option<Self>)
        ensures
            r.deep_view() == signal_in(value@),
    {
        let kind = match read_text(value, "type") {
            Some(kind) => kind,
            None => return None,
        };
        if same(&kind, "join") {
            match read_text(value, "channel") {
                Some(channel) => Some(Signal::Join { channel }),
                None => None,
            }
        } else if same(&kind, "leave") {
            match read_text(value, "channel") {
                Some(channel) => Some(Signal::Leave { channel }),
                None => None,
            }
        } else if same(&kind, "joined") {
            decode_joined(value)
        } else if same(&kind, "offer") {
            match read_text(value, "sdp") {
                Some(sdp) => Some(
                    Signal::Offer { sdp, tracks: read_tracks(value), chunk: decode_chunk(value) },
                ),
                None => None,
            }
        } else if same(&kind, "answer") {
            match read_text(value, "sdp") {
                Some(sdp) => Some(Signal::Answer { sdp, chunk: decode_chunk(value) }),
                None => None,
            }
        } else if same(&kind, "ice") {
            match read_text(value, "cand") {
                Some(cand) => Some(
                    Signal::Ice {
                        cand,
                        mid: read_text(value, "mid"),
                        mlineidx: read_u32(value, "mlineidx"),
                    },
                ),
                None => None,
            }
        } else if same(&kind, "presence") {
            decode_presence(value)
        } else if same(&kind, "mic") {
            match decode_on_off(value) {
                Some(state) => Some(Signal::Mic { state }),
                None => None,
            }
        } else if same(&kind, "video") {
            match decode_on_off(value) {
                Some(state) => Some(Signal::Video { state }),
                None => None,
            }
        } else if same(&kind, "screen") {
            match decode_on_off(value) {
                Some(state) => Some(Signal::Screen { state }),
                None => None,
            }
        } else if same(&kind, "hand") {
            match decode_on_off(value) {
                Some(state) => Some(Signal::Hand { state }),
                None => None,
            }
        } else if same(&kind, "deaf") {
            match decode_on_off(value) {
                Some(state) => Some(Signal::Deaf { state }),
                None => None,
            }
        } else if same(&kind, "speaking") {
            Some(Signal::Speaking)
        } else if same(&kind, "silent") {
            Some(Signal::Silent)
        } else if same(&kind, "react") {
            match read_text(value, "emoji") {
                Some(emoji) => Some(Signal::React { member: read_text(value, "member"), emoji }),
                None => None,
            }
        } else if same(&kind, "promote") {
            match read_text(value, "target") {
                Some(target) => Some(Signal::Promote { target }),
                None => None,
            }
        } else if same(&kind, "demote") {
            match read_text(value, "target") {
                Some(target) => Some(Signal::Demote { target }),
                None => None,
            }
        } else if same(&kind, "role") {
            match (read_text(value, "member"), read_role(value)) {
                (Some(member), Some(role)) => Some(Signal::Role { member, role }),
                _ => None,
            }
        } else if same(&kind, "error") {
            Some(Signal::Error { error: read_text(value, "error") })
        } else {
            None
        }
    }
}

fn read_text(value: &Json, key: &str) -> (r: Option<String>)
    ensures
        r.deep_view() == text_field(value@, key@),
{
    match value.field(key) {
        Some(v) => match v.as_str() {
            Some(text) => Some(text.to_owned()),
            None => None,
        },
        None => None,
    }
}

fn read_u32(value: &Json, key: &str) -> (r: Option<u32>)
    ensures
        r == u32_field(value@, key@),
{
    match value.field(key) {
        Some(v) => v.as_u32(),
        None => None,
    }
}

fn read_role(value: &Json) -> (r: Option<Role>)
    ensures
        r == role_in(value@),
{
    match read_text(value, "role") {
        Some(text) => Role::parse(&text),
        None => None,
    }
}

fn decode_on_off(value: &Json) -> (r: Option<OnOff>)
    ensures
        r == on_off_in(value@),
{
    match read_text(value, "state") {
        Some(text) => OnOff::parse(&text),
        None => None,
    }
}

fn decode_chunk(value: &Json) -> (r: Option<ChunkMeta>)
    ensures
        r.deep_view() == chunk_in(value@),
{
    match (read_text(value, "id"), read_u32(value, "seq"), read_u32(value, "total")) {
        (Some(id), Some(seq), Some(total)) => Some(ChunkMeta { id, seq, total }),
        _ => None,
    }
}

fn read_texts(value: &Json) -> (r: Option<Vec<String>>)
    ensures
        r.deep_view() == texts_in(value@),
{
    let items = match value.as_array() {
        Some(items) => items,
        None => return None,
    };
    let ghost all = views(items@);
    proof {
        lemma_views(items@);
    }
    let mut out: Vec<String> = Vec::new();
    let mut i: usize = 0;
    while i < items.len()
        invariant
            i <= items@.len() == all.len(),
            value@ == JsonView::Array(all),
            forall|j: int| 0 <= j < items@.len() ==> (#[trigger] all[j]) == items@[j]@,
            forall|j: int| 0 <= j < i ==> text_in(#[trigger] all[j]) is Some,
            out@.len() == i,
            forall|j: int| 0 <= j < i ==> text_in(all[j]) == Some((#[trigger] out@[j])@),
        decreases items@.len() - i,
    {
        match items[i].as_str() {
            Some(text) => {
                assert(text_in(all[i as int]) == Some(text@));
                out.push(text.to_owned());
            },
            None => {
                assert(text_in(all[i as int]) is None);
                return None;
            },
        }
        i = i + 1;
    }
    assert(out.deep_view() =~= all.map_values(|v: JsonView| text_in(v)->0));
    Some(out)
}

fn decode_track(value: &Json) -> (r: Option<TrackHint>)
    ensures
        r.deep_view() == track_in(value@),
{
    match (read_text(value, "mid"), read_text(value, "member")) {
        (Some(mid), Some(member)) => Some(TrackHint { mid, member }),
        _ => None,
    }
}

fn decode_tracks(value: &Json) -> (r: Option<Vec<TrackHint>>)
    ensures
        r.deep_view() == tracks_in(value@),
{
    let items = match value.as_array() {
        Some(items) => items,
        None => return None,
    };
    let ghost all = views(items@);
    proof {
        lemma_views(items@);
    }
    let mut out: Vec<TrackHint> = Vec::new();
    let mut i: usize = 0;
    while i < items.len()
        invariant
            i <= items@.len() == all.len(),
            value@ == JsonView::Array(all),
            forall|j: int| 0 <= j < items@.len() ==> (#[trigger] all[j]) == items@[j]@,
            forall|j: int| 0 <= j < i ==> track_in(#[trigger] all[j]) is Some,
            out@.len() == i,
            forall|j: int| 0 <= j < i ==> track_in(all[j]) == Some((#[trigger] out@[j])@),
        decreases items@.len() - i,
    {
        match decode_track(&items[i]) {
            Some(track) => {
                assert(track_in(all[i as int]) == Some(track@));
                out.push(track);
            },
            None => {
                assert(track_in(all[i as int]) is None);
                return None;
            },
        }
        i = i + 1;
    }
    assert(out.deep_view() =~= all.map_values(|v: JsonView| track_in(v)->0));
    Some(out)
}

fn read_tracks(value: &Json) -> (r: Option<Vec<TrackHint>>)
    ensures
        r.deep_view() == tracks_field(value@),
{
    match value.field("tracks") {
        Some(v) => decode_tracks(v),
        None => None,
    }
}

fn decode_turn(value: &Json) -> (r: Option<TurnCredentials>)
    ensures
        r.deep_view() == turn_in(value@),
{
    let urls = match value.field("urls") {
        Some(v) => match v.as_str() {
            Some(url) => {
                let mut one: Vec<String> = Vec::new();
                one.push(url.to_owned());
                assert(one.deep_view() =~= seq![url@]);
                one
            },
            None => match read_texts(v) {
                Some(urls) => urls,
                None => return None,
            },
        },
        None => return None,
    };
    match (read_text(value, "username"), read_text(value, "password")) {
        (Some(username), Some(password)) => Some(TurnCredentials { urls, username, password }),
        _ => None,
    }
}

fn decode_joined(value: &Json) -> (r: Option<Signal>)
    ensures
        r.deep_view() == joined_in(value@),
{
    let members = match value.field("members") {
        Some(v) => match read_texts(v) {
            Some(members) => members,
            None => return None,
        },
        None => return None,
    };
    let mode = match read_text(value, "mode") {
        Some(text) => RoomKind::parse(&text),
        None => None,
    };
    let role = read_role(value);
    let streamers = match value.field("streamers") {
        Some(v) => read_texts(v),
        None => None,
    };
    let turn = match value.field("turn") {
        Some(v) => decode_turn(v),
        None => None,
    };
    let tracks = read_tracks(value);
    Some(Signal::Joined { members, mode, role, streamers, turn, tracks })
}

fn decode_presence(value: &Json) -> (r: Option<Signal>)
    ensures
        r.deep_view() == presence_in(value@),
{
    let (member, text) = match (read_text(value, "member"), read_text(value, "state")) {
        (Some(member), Some(text)) => (member, text),
        _ => return None,
    };
    let state = match PresenceState::parse(&text) {
        Some(state) => state,
        None => return None,
    };
    let kind = match read_text(value, "kind") {
        Some(text) => ToggleKind::parse(&text),
        None => None,
    };
    Some(Signal::Presence { member, state, kind, role: read_role(value) })
}

} // verus!

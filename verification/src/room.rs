//! The state of a voice room: who is in it, and what each of them does.

use vstd::prelude::*;

use crate::sorted::SortedMap;
use crate::voice::{
    OnOff, PresenceState, Role, RoomKind, Signal, SignalView, ToggleKind, TurnCredentials,
    TurnCredentialsView,
};
use crate::wire::{CaseFolded, Casemapping};

verus! {

/// One participant's state within a [`Room`].
#[derive(Debug, Clone, PartialEq, Eq)]
pub struct Participant {
    /// Their nick as the server spells it. The map that holds them is keyed by a fold that throws
    /// the spelling away.
    pub nick: String,
    /// Whether they may publish.
    pub role: Role,
    /// Microphone on.
    pub mic: OnOff,
    /// Camera on.
    pub video: OnOff,
    /// What the last `presence` said of their voice activity.
    pub speaking: OnOff,
    /// Not receiving room audio.
    pub deaf: OnOff,
    /// Screen share active.
    pub screen: OnOff,
    /// Hand raised.
    pub hand: OnOff,
}

/// What a [`Participant`] says.
#[verifier::ext_equal]
pub struct ParticipantView {
    pub nick: Seq<char>,
    pub role: Role,
    pub mic: OnOff,
    pub video: OnOff,
    pub speaking: OnOff,
    pub deaf: OnOff,
    pub screen: OnOff,
    pub hand: OnOff,
}

impl View for Participant {
    type V = ParticipantView;

    open spec fn view(&self) -> ParticipantView {
        ParticipantView {
            nick: self.nick@,
            role: self.role,
            mic: self.mic,
            video: self.video,
            speaking: self.speaking,
            deaf: self.deaf,
            screen: self.screen,
            hand: self.hand,
        }
    }
}

impl DeepView for Participant {
    type V = ParticipantView;

    open spec fn deep_view(&self) -> ParticipantView {
        self@
    }
}

impl ParticipantView {
    /// Someone with every toggle off, in the role that a room hands out by default.
    pub open spec fn fresh(nick: Seq<char>) -> ParticipantView {
        ParticipantView {
            nick,
            role: Role::Viewer,
            mic: OnOff::Off,
            video: OnOff::Off,
            speaking: OnOff::Off,
            deaf: OnOff::Off,
            screen: OnOff::Off,
            hand: OnOff::Off,
        }
    }

    /// With this toggle set.
    pub open spec fn toggled(self, kind: ToggleKind, state: OnOff) -> ParticipantView {
        match kind {
            ToggleKind::Mic => ParticipantView { mic: state, ..self },
            ToggleKind::Video => ParticipantView { video: state, ..self },
            ToggleKind::Screen => ParticipantView { screen: state, ..self },
            ToggleKind::Hand => ParticipantView { hand: state, ..self },
        }
    }

    /// After a presence that says something of what they do. A toggle without a kind says nothing.
    pub open spec fn doing(self, state: PresenceState, kind: Option<ToggleKind>) -> ParticipantView {
        match (state, kind) {
            (PresenceState::On, Some(kind)) => self.toggled(kind, OnOff::On),
            (PresenceState::Off, Some(kind)) => self.toggled(kind, OnOff::Off),
            (PresenceState::Speaking, _) => ParticipantView { speaking: OnOff::On, ..self },
            (PresenceState::Silent, _) => ParticipantView { speaking: OnOff::Off, ..self },
            (PresenceState::DeafOn, _) => ParticipantView { deaf: OnOff::On, ..self },
            (PresenceState::DeafOff, _) => ParticipantView { deaf: OnOff::Off, ..self },
            _ => self,
        }
    }
}

impl Participant {
    /// Someone in a room with every toggle off, in the role that a room hands out by default.
    pub fn new(nick: &str) -> (r: Self)
        ensures
            r@ == ParticipantView::fresh(nick@),
    {
        Participant {
            nick: nick.to_owned(),
            role: Role::Viewer,
            mic: OnOff::Off,
            video: OnOff::Off,
            speaking: OnOff::Off,
            deaf: OnOff::Off,
            screen: OnOff::Off,
            hand: OnOff::Off,
        }
    }

    fn toggle(&mut self, kind: ToggleKind, state: OnOff)
        ensures
            final(self)@ == old(self)@.toggled(kind, state),
    {
        match kind {
            ToggleKind::Mic => self.mic = state,
            ToggleKind::Video => self.video = state,
            ToggleKind::Screen => self.screen = state,
            ToggleKind::Hand => self.hand = state,
        }
    }

    fn set_flag(&mut self, state: PresenceState, kind: Option<ToggleKind>)
        ensures
            final(self)@ == old(self)@.doing(state, kind),
    {
        match (state, kind) {
            (PresenceState::On, Some(kind)) => self.toggle(kind, OnOff::On),
            (PresenceState::Off, Some(kind)) => self.toggle(kind, OnOff::Off),
            (PresenceState::Speaking, _) => self.speaking = OnOff::On,
            (PresenceState::Silent, _) => self.speaking = OnOff::Off,
            (PresenceState::DeafOn, _) => self.deaf = OnOff::On,
            (PresenceState::DeafOff, _) => self.deaf = OnOff::Off,
            _ => {},
        }
    }
}

impl Default for Participant {
    fn default() -> (r: Self)
        ensures
            r@ == ParticipantView::fresh(Seq::empty()),
    {
        let r = Participant::new("");
        proof {
            reveal_strlit("");
            assert(r@.nick =~= Seq::empty());
        }
        r
    }
}

/// The state of one voice room.
pub struct Room {
    /// The channel that this room's signalling is scoped to.
    pub channel: String,
    /// Whether every member publishes, or only the streamer and whoever they promote.
    pub kind: RoomKind,
    /// Every known participant by their folded nick.
    pub participants: SortedMap<CaseFolded, Participant>,
    /// The TURN credentials that came with `joined`, if they have yet.
    pub turn: Option<TurnCredentials>,
}

/// What a [`Room`] holds.
#[verifier::ext_equal]
pub struct RoomView {
    pub channel: Seq<char>,
    pub kind: RoomKind,
    pub participants: Map<Seq<char>, ParticipantView>,
    pub turn: Option<TurnCredentialsView>,
}

impl View for Room {
    type V = RoomView;

    open spec fn view(&self) -> RoomView {
        RoomView {
            channel: self.channel@,
            kind: self.kind,
            participants: self.participants@,
            turn: self.turn.deep_view(),
        }
    }
}

impl DeepView for Room {
    type V = RoomView;

    open spec fn deep_view(&self) -> RoomView {
        self@
    }
}

/// True when one of these names is this one.
pub open spec fn names(casemap: Casemapping, list: Seq<Seq<char>>, name: Seq<char>) -> bool {
    exists|i: int|
        0 <= i < list.len() && casemap.folded(#[trigger] list[i]) == casemap.folded(name)
}

impl RoomView {
    /// A room with nobody in it yet, whose kind follows its channel's prefix.
    pub open spec fn empty(channel: Seq<char>) -> RoomView {
        RoomView {
            channel,
            kind: RoomKind::of_channel(channel),
            participants: Map::empty(),
            turn: None,
        }
    }

    /// The role that the kind of room gives someone. In a stream only those named as streamers
    /// publish.
    pub open spec fn role_of(
        self,
        member: Seq<char>,
        streamers: Option<Seq<Seq<char>>>,
        casemap: Casemapping,
    ) -> Role {
        match (self.kind, streamers) {
            (RoomKind::Publish, _) => Role::Publisher,
            (RoomKind::Stream, Some(list)) => if names(casemap, list, member) {
                Role::Publisher
            } else {
                Role::Viewer
            },
            (RoomKind::Stream, None) => Role::Viewer,
        }
    }

    /// With someone in this role, who is new where the room did not know them.
    pub open spec fn with_role(self, member: Seq<char>, role: Role, casemap: Casemapping) -> RoomView {
        let key = casemap.folded(member);
        let was = if self.participants.contains_key(key) {
            self.participants[key]
        } else {
            ParticipantView::fresh(member)
        };
        RoomView {
            participants: self.participants.insert(key, ParticipantView { role, ..was }),
            ..self
        }
    }

    /// After the members of a room were listed. A role that the frame carries is ours alone.
    pub open spec fn with_members(
        self,
        me: Seq<char>,
        members: Seq<Seq<char>>,
        role: Option<Role>,
        streamers: Option<Seq<Seq<char>>>,
        casemap: Casemapping,
    ) -> RoomView
        decreases members.len(),
    {
        if members.len() == 0 {
            self
        } else {
            let rest = self.with_members(me, members.drop_last(), role, streamers, casemap);
            let member = members.last();
            match role {
                Some(role) if casemap.folded(member) == casemap.folded(me) => rest.with_role(
                    member,
                    role,
                    casemap,
                ),
                _ => rest.with_role(member, rest.role_of(member, streamers, casemap), casemap),
            }
        }
    }

    /// After a presence. Of someone who is not here, only that they joined counts.
    pub open spec fn with_presence(
        self,
        member: Seq<char>,
        state: PresenceState,
        kind: Option<ToggleKind>,
        role: Option<Role>,
        casemap: Casemapping,
    ) -> RoomView {
        let key = casemap.folded(member);
        match (state, role) {
            (PresenceState::Joined, Some(role)) => self.with_role(member, role, casemap),
            (PresenceState::Joined, None) => self.with_role(
                member,
                self.role_of(member, None, casemap),
                casemap,
            ),
            (PresenceState::Left, _) => RoomView {
                participants: self.participants.remove(key),
                ..self
            },
            _ => if self.participants.contains_key(key) {
                RoomView {
                    participants: self.participants.insert(
                        key,
                        self.participants[key].doing(state, kind),
                    ),
                    ..self
                }
            } else {
                self
            },
        }
    }

    /// After a signal from the server. Frames that say nothing of who is here change nothing.
    pub open spec fn after(self, me: Seq<char>, signal: SignalView, casemap: Casemapping) -> RoomView {
        match signal {
            SignalView::Joined { members, role, streamers, turn, .. } => RoomView {
                turn,
                ..self
            }.with_members(me, members, role, streamers, casemap),
            SignalView::Presence { member, state, kind, role } => self.with_presence(
                member,
                state,
                kind,
                role,
                casemap,
            ),
            SignalView::Role { member, role } => self.with_role(member, role, casemap),
            _ => self,
        }
    }
}

impl Room {
    /// A room with no participants yet, whose kind follows the `^` or `$` prefix of its channel.
    pub fn new(channel: &str) -> (r: Self)
        ensures
            r@ == RoomView::empty(channel@),
    {
        Room {
            channel: channel.to_owned(),
            kind: RoomKind::for_channel(channel),
            participants: SortedMap::new(),
            turn: None,
        }
    }

    /// Apply one server signal, updating who is here and what they do.
    ///
    /// `me` is our own nick, which the role of a `joined` frame speaks of. `casemap` is the
    /// server's: two spellings of one nick are one person. Every other frame is ignored, for it is
    /// either an intent that comes back as `presence`, or says nothing of who is here.
    pub fn apply(&mut self, me: &str, signal: &Signal, casemap: Casemapping)
        ensures
            final(self)@ == old(self)@.after(me@, signal@, casemap),
    {
        match signal {
            Signal::Joined { members, role, streamers, turn, .. } => self.apply_joined(
                me,
                members,
                *role,
                streamers,
                turn,
                casemap,
            ),
            Signal::Presence { member, state, kind, role } => self.apply_presence(
                member,
                *state,
                *kind,
                *role,
                casemap,
            ),
            Signal::Role { member, role } => self.set_role(member, *role, casemap),
            _ => {},
        }
    }

    fn apply_joined(
        &mut self,
        me: &str,
        members: &Vec<String>,
        role: Option<Role>,
        streamers: &Option<Vec<String>>,
        turn: &Option<TurnCredentials>,
        casemap: Casemapping,
    )
        ensures
            final(self)@ == (RoomView { turn: turn.deep_view(), ..old(self)@ }).with_members(
                me@,
                members.deep_view(),
                role,
                streamers.deep_view(),
                casemap,
            ),
    {
        self.turn = match turn {
            Some(turn) => Some(turn.copy()),
            None => None,
        };
        let ghost start = self@;
        let ghost all = members.deep_view();
        let mut i: usize = 0;
        assert(all.take(0) =~= Seq::empty());
        while i < members.len()
            invariant
                i <= members@.len() == all.len(),
                all == members.deep_view(),
                self@ == start.with_members(
                    me@,
                    all.take(i as int),
                    role,
                    streamers.deep_view(),
                    casemap,
                ),
            decreases members@.len() - i,
        {
            assert(all.take(i + 1).drop_last() =~= all.take(i as int));
            let member = members[i].as_str();
            let assigned = match role {
                Some(role) if casemap.matches(member, me) => role,
                _ => self.role_for(member, streamers, casemap),
            };
            self.set_role(member, assigned, casemap);
            i = i + 1;
        }
        assert(all.take(all.len() as int) =~= all);
    }

    fn set_role(&mut self, member: &str, role: Role, casemap: Casemapping)
        ensures
            final(self)@ == old(self)@.with_role(member@, role, casemap),
    {
        let participant = self.participants.get_or_insert(
            casemap.fold(member),
            Participant::new(member),
        );
        participant.role = role;
    }

    fn apply_presence(
        &mut self,
        member: &str,
        state: PresenceState,
        kind: Option<ToggleKind>,
        role: Option<Role>,
        casemap: Casemapping,
    )
        ensures
            final(self)@ == old(self)@.with_presence(member@, state, kind, role, casemap),
    {
        match state {
            PresenceState::Joined => {
                let assigned = match role {
                    Some(role) => role,
                    None => self.role_for(member, &None, casemap),
                };
                self.set_role(member, assigned, casemap);
            },
            PresenceState::Left => {
                self.participants.remove(&casemap.fold(member));
            },
            _ => {
                if let Some(participant) = self.participants.get_mut(&casemap.fold(member)) {
                    participant.set_flag(state, kind);
                }
            },
        }
    }

    fn role_for(
        &self,
        member: &str,
        streamers: &Option<Vec<String>>,
        casemap: Casemapping,
    ) -> (r: Role)
        ensures
            r == self@.role_of(member@, streamers.deep_view(), casemap),
    {
        match self.kind {
            RoomKind::Publish => Role::Publisher,
            RoomKind::Stream => match streamers {
                Some(list) => {
                    let mut i: usize = 0;
                    while i < list.len()
                        invariant
                            i <= list@.len(),
                            self.kind == RoomKind::Stream,
                            streamers.deep_view() == Some(list.deep_view()),
                            forall|j: int|
                                0 <= j < i ==> casemap.folded(#[trigger] list.deep_view()[j])
                                    != casemap.folded(member@),
                        decreases list@.len() - i,
                    {
                        if casemap.matches(&list[i], member) {
                            assert(casemap.folded(list.deep_view()[i as int]) == casemap.folded(
                                member@,
                            ));
                            return Role::Publisher;
                        }
                        i = i + 1;
                    }
                    Role::Viewer
                },
                None => Role::Viewer,
            },
        }
    }
}

/// Two spellings of one nick are one participant: whoever joins under the one and leaves under the
/// other is gone, and whoever joins twice is there once.
pub proof fn law_spellings_are_one_participant(
    room: RoomView,
    one: Seq<char>,
    other: Seq<char>,
    role: Option<Role>,
    casemap: Casemapping,
)
    requires
        casemap.folded(one) == casemap.folded(other),
    ensures
        ({
            let joined = room.with_presence(one, PresenceState::Joined, None, role, casemap);
            let left = joined.with_presence(other, PresenceState::Left, None, None, casemap);
            let again = joined.with_presence(other, PresenceState::Joined, None, role, casemap);
            &&& joined.participants.contains_key(casemap.folded(other))
            &&& left.participants == room.participants.remove(casemap.folded(one))
            &&& again == joined
        }),
{
    let joined = room.with_presence(one, PresenceState::Joined, None, role, casemap);
    let left = joined.with_presence(other, PresenceState::Left, None, None, casemap);
    let again = joined.with_presence(other, PresenceState::Joined, None, role, casemap);
    assert(left.participants =~= room.participants.remove(casemap.folded(one)));
    assert(again.participants =~= joined.participants);
}

/// Of the presences of someone who is not here, only that they joined puts them into the room; any
/// other changes nothing.
pub proof fn law_only_joining_adds_a_participant(
    room: RoomView,
    member: Seq<char>,
    state: PresenceState,
    kind: Option<ToggleKind>,
    role: Option<Role>,
    casemap: Casemapping,
)
    requires
        state != PresenceState::Joined,
        !room.participants.contains_key(casemap.folded(member)),
    ensures
        room.with_presence(member, state, kind, role, casemap) == room,
{
    assert(room.participants.remove(casemap.folded(member)) =~= room.participants);
}

/// A presence of someone who is here shows what it says and nothing else. A toggle that it turns on
/// is on and one that it turns off is off, whoever talks is shown as talking until they are silent,
/// and whoever deafens themself as deaf until they no longer do. Their other toggles, their nick and
/// their role stay, and so does everyone else.
pub proof fn law_presence_shows_what_they_do(
    room: RoomView,
    me: Seq<char>,
    member: Seq<char>,
    state: PresenceState,
    kind: Option<ToggleKind>,
    role: Option<Role>,
    casemap: Casemapping,
    other: Seq<char>,
)
    requires
        room.participants.contains_key(casemap.folded(member)),
        state != PresenceState::Joined && state != PresenceState::Left,
    ensures
        ({
            let key = casemap.folded(member);
            let after = room.after(
                me,
                SignalView::Presence { member, state, kind, role },
                casemap,
            );
            let was = room.participants[key];
            let now = after.participants[key];
            let on = state == PresenceState::On;
            let off = state == PresenceState::Off;
            &&& after.participants.dom() == room.participants.dom()
            &&& other != key && room.participants.contains_key(other) ==> after.participants[other]
                == room.participants[other]
            &&& on && kind == Some(ToggleKind::Mic) ==> now.mic == OnOff::On
            &&& off && kind == Some(ToggleKind::Mic) ==> now.mic == OnOff::Off
            &&& !(on || off) || kind != Some(ToggleKind::Mic) ==> now.mic == was.mic
            &&& on && kind == Some(ToggleKind::Video) ==> now.video == OnOff::On
            &&& off && kind == Some(ToggleKind::Video) ==> now.video == OnOff::Off
            &&& !(on || off) || kind != Some(ToggleKind::Video) ==> now.video == was.video
            &&& on && kind == Some(ToggleKind::Screen) ==> now.screen == OnOff::On
            &&& off && kind == Some(ToggleKind::Screen) ==> now.screen == OnOff::Off
            &&& !(on || off) || kind != Some(ToggleKind::Screen) ==> now.screen == was.screen
            &&& on && kind == Some(ToggleKind::Hand) ==> now.hand == OnOff::On
            &&& off && kind == Some(ToggleKind::Hand) ==> now.hand == OnOff::Off
            &&& !(on || off) || kind != Some(ToggleKind::Hand) ==> now.hand == was.hand
            &&& state == PresenceState::Speaking ==> now.speaking == OnOff::On
            &&& state == PresenceState::Silent ==> now.speaking == OnOff::Off
            &&& state != PresenceState::Speaking && state != PresenceState::Silent ==> now.speaking
                == was.speaking
            &&& state == PresenceState::DeafOn ==> now.deaf == OnOff::On
            &&& state == PresenceState::DeafOff ==> now.deaf == OnOff::Off
            &&& state != PresenceState::DeafOn && state != PresenceState::DeafOff ==> now.deaf
                == was.deaf
            &&& now.nick == was.nick && now.role == was.role
            &&& after.channel == room.channel && after.kind == room.kind && after.turn == room.turn
        }),
{
    let key = casemap.folded(member);
    let after = room.after(me, SignalView::Presence { member, state, kind, role }, casemap);
    assert(after.participants.dom() =~= room.participants.dom());
}

/// Whoever joins is in the room, in the role that the frame gives them or else in the one that the
/// kind of room has for everybody; a newcomer has every toggle off, and someone who was here keeps
/// theirs. Whoever leaves is not in the room. Nobody else is touched.
pub proof fn law_coming_and_going(
    room: RoomView,
    me: Seq<char>,
    member: Seq<char>,
    kind: Option<ToggleKind>,
    role: Option<Role>,
    casemap: Casemapping,
    other: Seq<char>,
)
    ensures
        ({
            let key = casemap.folded(member);
            let state = PresenceState::Joined;
            let came = room.after(me, SignalView::Presence { member, state, kind, role }, casemap);
            let state = PresenceState::Left;
            let went = room.after(me, SignalView::Presence { member, state, kind, role }, casemap);
            let now = came.participants[key];
            &&& came.participants.contains_key(key)
            &&& role is Some ==> now.role == role->0
            &&& role is None && room.kind == RoomKind::Publish ==> now.role == Role::Publisher
            &&& role is None && room.kind == RoomKind::Stream ==> now.role == Role::Viewer
            &&& !room.participants.contains_key(key) ==> {
                &&& now.nick == member
                &&& now.mic == OnOff::Off && now.video == OnOff::Off && now.speaking == OnOff::Off
                &&& now.deaf == OnOff::Off && now.screen == OnOff::Off && now.hand == OnOff::Off
            }
            &&& room.participants.contains_key(key) ==> {
                let was = room.participants[key];
                &&& now.nick == was.nick
                &&& now.mic == was.mic && now.video == was.video && now.speaking == was.speaking
                &&& now.deaf == was.deaf && now.screen == was.screen && now.hand == was.hand
            }
            &&& !went.participants.contains_key(key)
            &&& other != key ==> {
                &&& came.participants.contains_key(other) == room.participants.contains_key(other)
                &&& went.participants.contains_key(other) == room.participants.contains_key(other)
                &&& room.participants.contains_key(other) ==> came.participants[other]
                    == room.participants[other] && went.participants[other]
                    == room.participants[other]
            }
        }),
{
}

/// A role that the server gives someone is theirs from then on, and changes nothing else of them or
/// of anyone.
pub proof fn law_role_is_given(
    room: RoomView,
    me: Seq<char>,
    member: Seq<char>,
    role: Role,
    casemap: Casemapping,
    other: Seq<char>,
)
    ensures
        ({
            let key = casemap.folded(member);
            let after = room.after(me, SignalView::Role { member, role }, casemap);
            let now = after.participants[key];
            &&& after.participants.contains_key(key)
            &&& now.role == role
            &&& room.participants.contains_key(key) ==> now == (ParticipantView {
                role: now.role,
                ..room.participants[key]
            })
            &&& !room.participants.contains_key(key) ==> now.nick == member
            &&& other != key ==> after.participants.contains_key(other)
                == room.participants.contains_key(other)
            &&& other != key && room.participants.contains_key(other) ==> after.participants[other]
                == room.participants[other]
            &&& after.turn == room.turn && after.channel == room.channel && after.kind == room.kind
        }),
{
}

/// A room that is listed holds everyone on the list, and nobody that was neither here nor listed. We
/// are in the role that the frame carries, where it carries one. Of the others, in a stream only
/// those named as streamers publish, and elsewhere everybody does. The credentials for the call are
/// those of the frame.
pub proof fn law_listed_members_are_here(
    room: RoomView,
    me: Seq<char>,
    members: Seq<Seq<char>>,
    mode: Option<RoomKind>,
    role: Option<Role>,
    streamers: Option<Seq<Seq<char>>>,
    turn: Option<TurnCredentialsView>,
    tracks: Option<Seq<crate::voice::TrackHintView>>,
    casemap: Casemapping,
    i: int,
    other: Seq<char>,
)
    requires
        0 <= i < members.len(),
    ensures
        ({
            let after = room.after(
                me,
                SignalView::Joined { members, mode, role, streamers, turn, tracks },
                casemap,
            );
            let key = casemap.folded(members[i]);
            let now = after.participants[key];
            let is_me = key == casemap.folded(me);
            let streams = streamers is Some && among(casemap, streamers->0, key);
            let listed = among(casemap, members, other);
            &&& after.turn == turn
            &&& after.channel == room.channel && after.kind == room.kind
            &&& after.participants.contains_key(key)
            &&& is_me && role is Some ==> now.role == role->0
            &&& !(is_me && role is Some) && room.kind == RoomKind::Publish ==> now.role
                == Role::Publisher
            &&& !(is_me && role is Some) && room.kind == RoomKind::Stream && streams ==> now.role
                == Role::Publisher
            &&& !(is_me && role is Some) && room.kind == RoomKind::Stream && !streams ==> now.role
                == Role::Viewer
            &&& room.participants.contains_key(key) ==> now == (ParticipantView {
                role: now.role,
                ..room.participants[key]
            })
            &&& !listed ==> untouched(room, after, other)
        }),
{
    let start = RoomView { turn, ..room };
    lemma_members(start, me, members, role, streamers, casemap);
    let after = room.after(
        me,
        SignalView::Joined { members, mode, role, streamers, turn, tracks },
        casemap,
    );
    let key = casemap.folded(members[i]);
    assert(listed_as(start, after, me, members[i], role, streamers, casemap));
    assert(untouched(start, after, other) || among(casemap, members, other));
    if room.participants.contains_key(key) {
        assert(start.participants.contains_key(key));
    }
    if streamers is Some {
        assert(names(casemap, streamers->0, members[i]) == among(casemap, streamers->0, key));
    }
}

proof fn lemma_members(
    room: RoomView,
    me: Seq<char>,
    members: Seq<Seq<char>>,
    role: Option<Role>,
    streamers: Option<Seq<Seq<char>>>,
    casemap: Casemapping,
)
    ensures
        room.with_members(me, members, role, streamers, casemap) == (RoomView {
            participants: room.with_members(
                me,
                members,
                role,
                streamers,
                casemap,
            ).participants,
            ..room
        }),
        forall|j: int|
            0 <= j < members.len() ==> listed_as(
                room,
                room.with_members(me, members, role, streamers, casemap),
                me,
                #[trigger] members[j],
                role,
                streamers,
                casemap,
            ),
        forall|k: Seq<char>| #[trigger]
            room.participants.contains_key(k) ==> stays_but_for_role(
                room,
                room.with_members(me, members, role, streamers, casemap),
                k,
            ),
        forall|k: Seq<char>|
            !among(casemap, members, k) ==> #[trigger] untouched(
                room,
                room.with_members(me, members, role, streamers, casemap),
                k,
            ),
    decreases members.len(),
{
    if members.len() > 0 {
        let rest = members.drop_last();
        lemma_members(room, me, rest, role, streamers, casemap);
        let before = room.with_members(me, rest, role, streamers, casemap);
        let after = room.with_members(me, members, role, streamers, casemap);
        let last = casemap.folded(members.last());
        assert(members[members.len() - 1] == members.last());
        assert forall|j: int| 0 <= j < members.len() implies listed_as(
            room,
            after,
            me,
            #[trigger] members[j],
            role,
            streamers,
            casemap,
        ) by {
            if j < rest.len() {
                assert(rest[j] == members[j]);
            }
            if streamers is Some && casemap.folded(members[j]) == last {
                assert(names(casemap, streamers->0, members[j]) == names(
                    casemap,
                    streamers->0,
                    members.last(),
                ));
            }
        }
        assert forall|k: Seq<char>| !among(casemap, members, k) implies #[trigger] untouched(
            room,
            after,
            k,
        ) by {
            if among(casemap, rest, k) {
                let j = choose|j: int|
                    0 <= j < rest.len() && casemap.folded(#[trigger] rest[j]) == k;
                assert(members[j] == rest[j]);
            }
            assert(untouched(room, before, k));
        }
    }
}

/// True when one of these names is this key.
pub open spec fn among(casemap: Casemapping, list: Seq<Seq<char>>, key: Seq<char>) -> bool {
    exists|j: int| 0 <= j < list.len() && casemap.folded(#[trigger] list[j]) == key
}

/// True when the two rooms hold the same under a key.
pub open spec fn untouched(room: RoomView, after: RoomView, key: Seq<char>) -> bool {
    &&& after.participants.contains_key(key) == room.participants.contains_key(key)
    &&& room.participants.contains_key(key) ==> after.participants[key] == room.participants[key]
}

spec fn stays_but_for_role(room: RoomView, after: RoomView, key: Seq<char>) -> bool {
    after.participants.contains_key(key) && after.participants[key] == (ParticipantView {
        role: after.participants[key].role,
        ..room.participants[key]
    })
}

spec fn listed_as(
    room: RoomView,
    after: RoomView,
    me: Seq<char>,
    member: Seq<char>,
    role: Option<Role>,
    streamers: Option<Seq<Seq<char>>>,
    casemap: Casemapping,
) -> bool {
    let key = casemap.folded(member);
    &&& after.participants.contains_key(key)
    &&& after.participants[key].role == (if key == casemap.folded(me) && role is Some {
        role->0
    } else {
        room.role_of(member, streamers, casemap)
    })
}

/// A room begins with nobody in it; only in a `$` channel does a streamer publish and the rest
/// watch. A frame that says nothing of who is here leaves the room as it was.
pub proof fn law_room_starts_empty_and_stays(
    channel: Seq<char>,
    room: RoomView,
    me: Seq<char>,
    signal: SignalView,
    casemap: Casemapping,
    k: Seq<char>,
)
    ensures
        ({
            let empty = RoomView::empty(channel);
            &&& empty.channel == channel
            &&& !empty.participants.contains_key(k)
            &&& empty.turn is None
            &&& empty.kind == RoomKind::Stream <==> channel.len() > 0 && channel[0] == '$'
        }),
        !(signal is Joined) && !(signal is Presence) && !(signal is Role) ==> room.after(
            me,
            signal,
            casemap,
        ) == room,
{
}

} // verus!

//! What a voice frame looks like to whoever else speaks the protocol: the words in it, and what
//! each of them means.

use vstd::prelude::*;

use crate::json::{field_in, first_field, read, JsonView};
use crate::voice::{
    decoded, encoded, lemma_names, ChunkMetaView, OnOff, PresenceState, Role, RoomKind, SignalView,
    ToggleKind, TrackHintView, TurnCredentialsView,
};

verus! {

/// True when an object has this field, and no earlier one of that name.
pub open spec fn has(value: JsonView, key: Seq<char>, held: JsonView) -> bool {
    &&& value is Object
    &&& exists|i: int|
        {
            &&& 0 <= i < value->Object_0.len()
            &&& #[trigger] value->Object_0[i] == (key, held)
            &&& forall|j: int| 0 <= j < i ==> (#[trigger] value->Object_0[j]).0 != key
        }
}

/// True when an object has this field, and it is this text.
pub open spec fn has_text(value: JsonView, key: Seq<char>, text: Seq<char>) -> bool {
    has(value, key, JsonView::Str(text))
}

/// True when an object has no field of that name.
pub open spec fn lacks(value: JsonView, key: Seq<char>) -> bool {
    &&& value is Object
    &&& forall|j: int|
        0 <= j < value->Object_0.len() ==> (#[trigger] value->Object_0[j]).0 != key
}

/// True when an object has a text of that name exactly where there is one to have.
pub open spec fn may_have(value: JsonView, key: Seq<char>, text: Option<Seq<char>>) -> bool {
    if text is Some {
        has_text(value, key, text->0)
    } else {
        lacks(value, key)
    }
}

proof fn lemma_first(fields: Seq<(Seq<char>, JsonView)>, key: Seq<char>, i: int)
    requires
        0 <= i <= fields.len(),
        forall|j: int| 0 <= j < i ==> (#[trigger] fields[j]).0 != key,
        i < fields.len() ==> fields[i].0 == key,
    ensures
        i < fields.len() ==> first_field(fields, key) == Some(fields[i].1),
        i == fields.len() ==> first_field(fields, key) is None,
    decreases fields.len(),
{
    if fields.len() > 0 && i > 0 {
        let rest = fields.skip(1);
        assert forall|j: int| 0 <= j < i - 1 implies (#[trigger] rest[j]).0 != key by {
            assert(rest[j] == fields[j + 1]);
        }
        assert(fields[0].0 != key);
        lemma_first(rest, key, i - 1);
    }
}

proof fn lemma_has(value: JsonView)
    ensures
        forall|key: Seq<char>, held: JsonView| #[trigger]
            has(value, key, held) ==> field_in(value, key) == Some(held),
        forall|key: Seq<char>| #[trigger] lacks(value, key) ==> field_in(value, key) is None,
{
    assert forall|key: Seq<char>, held: JsonView| #[trigger] has(value, key, held) implies field_in(
        value,
        key,
    ) == Some(held) by {
        let i = choose|i: int|
            {
                &&& 0 <= i < value->Object_0.len()
                &&& #[trigger] value->Object_0[i] == (key, held)
                &&& forall|j: int| 0 <= j < i ==> (#[trigger] value->Object_0[j]).0 != key
            };
        lemma_first(value->Object_0, key, i);
    }
    assert forall|key: Seq<char>| #[trigger] lacks(value, key) implies field_in(
        value,
        key,
    ) is None by {
        lemma_first(value->Object_0, key, value->Object_0.len() as int);
    }
}

/// What on and off are called.
pub open spec fn on_off(state: OnOff) -> Seq<char> {
    if state == OnOff::On {
        "on"@
    } else {
        "off"@
    }
}

/// What a role is called.
pub open spec fn role_name(role: Role) -> Seq<char> {
    if role == Role::Publisher {
        "streamer"@
    } else {
        "viewer"@
    }
}

/// A frame that a device sends about itself, or that moves it in or out of a room, is told by its
/// type and carries one word more.
pub proof fn law_simple_frames(
    text: Seq<char>,
    value: JsonView,
    state: OnOff,
    word: Seq<char>,
)
    requires
        read(text) == Some(value),
    ensures
        has_text(value, "type"@, "join"@) && has_text(value, "channel"@, word) ==> decoded(text)
            == Some(SignalView::Join { channel: word }),
        has_text(value, "type"@, "leave"@) && has_text(value, "channel"@, word) ==> decoded(text)
            == Some(SignalView::Leave { channel: word }),
        has_text(value, "type"@, "mic"@) && has_text(value, "state"@, on_off(state)) ==> decoded(
            text,
        ) == Some(SignalView::Mic { state }),
        has_text(value, "type"@, "video"@) && has_text(value, "state"@, on_off(state)) ==> decoded(
            text,
        ) == Some(SignalView::Video { state }),
        has_text(value, "type"@, "screen"@) && has_text(value, "state"@, on_off(state)) ==> decoded(
            text,
        ) == Some(SignalView::Screen { state }),
        has_text(value, "type"@, "hand"@) && has_text(value, "state"@, on_off(state)) ==> decoded(
            text,
        ) == Some(SignalView::Hand { state }),
        has_text(value, "type"@, "deaf"@) && has_text(value, "state"@, on_off(state)) ==> decoded(
            text,
        ) == Some(SignalView::Deaf { state }),
        has_text(value, "type"@, "speaking"@) ==> decoded(text) == Some(SignalView::Speaking),
        has_text(value, "type"@, "silent"@) ==> decoded(text) == Some(SignalView::Silent),
        has_text(value, "type"@, "promote"@) && has_text(value, "target"@, word) ==> decoded(text)
            == Some(SignalView::Promote { target: word }),
        has_text(value, "type"@, "demote"@) && has_text(value, "target"@, word) ==> decoded(text)
            == Some(SignalView::Demote { target: word }),
        has_text(value, "type"@, "error"@) && has_text(value, "error"@, word) ==> decoded(text)
            == Some(SignalView::Error { error: Some(word) }),
        has_text(value, "type"@, "error"@) && lacks(value, "error"@) ==> decoded(text) == Some(
            SignalView::Error { error: None },
        ),
{
    lemma_names();
    lemma_has(value);
    reveal_strlit("on");
    reveal_strlit("off");
    assert("on"@.len() == 2 && "off"@.len() == 3);
}

/// A frame about somebody names them, with what they do, what it is about and what they may.
pub proof fn law_frames_about_others(
    text: Seq<char>,
    value: JsonView,
    member: Seq<char>,
    role: Role,
    emoji: Seq<char>,
    by: Option<Seq<char>>,
)
    requires
        read(text) == Some(value),
    ensures
        has_text(value, "type"@, "role"@) && has_text(value, "member"@, member) && has_text(
            value,
            "role"@,
            role_name(role),
        ) ==> decoded(text) == Some(SignalView::Role { member, role }),
        has_text(value, "type"@, "react"@) && may_have(value, "member"@, by) && has_text(
            value,
            "emoji"@,
            emoji,
        ) ==> decoded(text) == Some(SignalView::React { member: by, emoji }),
{
    lemma_names();
    lemma_has(value);
    reveal_strlit("streamer");
    reveal_strlit("viewer");
    assert("streamer"@.len() == 8 && "viewer"@.len() == 6);
}

/// What somebody's state is called.
pub open spec fn state_name(state: PresenceState) -> Seq<char> {
    match state {
        PresenceState::Joined => "joined"@,
        PresenceState::Left => "left"@,
        PresenceState::On => "on"@,
        PresenceState::Off => "off"@,
        PresenceState::Speaking => "speaking"@,
        PresenceState::Silent => "silent"@,
        PresenceState::DeafOn => "deaf-on"@,
        PresenceState::DeafOff => "deaf-off"@,
    }
}

/// What can be turned on and off is called this.
pub open spec fn kind_name(kind: ToggleKind) -> Seq<char> {
    match kind {
        ToggleKind::Mic => "mic"@,
        ToggleKind::Video => "video"@,
        ToggleKind::Screen => "screen"@,
        ToggleKind::Hand => "hand"@,
    }
}

/// A presence frame says who, what they do, and where it is a toggle which.
pub proof fn law_presence_frame(
    text: Seq<char>,
    value: JsonView,
    member: Seq<char>,
    state: PresenceState,
    kind: Option<ToggleKind>,
    role: Option<Role>,
)
    requires
        read(text) == Some(value),
        has_text(value, "type"@, "presence"@),
        has_text(value, "member"@, member),
        has_text(value, "state"@, state_name(state)),
        kind is Some ==> has_text(value, "kind"@, kind_name(kind->0)),
        kind is None ==> lacks(value, "kind"@),
        role is Some ==> has_text(value, "role"@, role_name(role->0)),
        role is None ==> lacks(value, "role"@),
    ensures
        decoded(text) == Some(SignalView::Presence { member, state, kind, role }),
{
    lemma_names();
    lemma_has(value);
    lemma_words();
    state.law_spelled();
    if kind is Some {
        kind->0.law_spelled();
    }
    if role is Some {
        role->0.law_spelled();
    }
}

proof fn lemma_words()
    ensures
        "streamer"@.len() == 8 && "viewer"@.len() == 6,
        "voice"@.len() == 5 && "stream"@.len() == 6,
{
    reveal_strlit("streamer");
    reveal_strlit("viewer");
    reveal_strlit("voice");
    reveal_strlit("stream");
}

/// True when a value is the list of these texts.
pub open spec fn lists(value: JsonView, texts: Seq<Seq<char>>) -> bool {
    &&& value is Array
    &&& value->Array_0.len() == texts.len()
    &&& forall|i: int|
        0 <= i < texts.len() ==> #[trigger] value->Array_0[i] == JsonView::Str(texts[i])
}

/// True when a value is the list of these media lines and whose they are.
pub open spec fn lists_tracks(value: JsonView, tracks: Seq<TrackHintView>) -> bool {
    &&& value is Array
    &&& value->Array_0.len() == tracks.len()
    &&& forall|i: int|
        0 <= i < tracks.len() ==> has_text(#[trigger] value->Array_0[i], "mid"@, tracks[i].mid)
            && has_text(value->Array_0[i], "member"@, tracks[i].member)
}

proof fn lemma_lists(value: JsonView, texts: Seq<Seq<char>>)
    requires
        lists(value, texts),
    ensures
        crate::voice::texts_in(value) == Some(texts),
{
    let items = value->Array_0;
    assert(items.map_values(|v: JsonView| crate::json::text_in(v)->0) =~= texts);
}

proof fn lemma_lists_tracks(value: JsonView, tracks: Seq<TrackHintView>)
    requires
        lists_tracks(value, tracks),
    ensures
        crate::voice::tracks_in(value) == Some(tracks),
{
    let items = value->Array_0;
    assert forall|i: int| 0 <= i < items.len() implies crate::voice::track_in(#[trigger] items[i])
        == Some(tracks[i]) by {
        lemma_has(items[i]);
        assert(has_text(items[i], "mid"@, tracks[i].mid));
    }
    assert(items.map_values(|v: JsonView| crate::voice::track_in(v)->0) =~= tracks);
}

/// The description of a call comes whole or in pieces that say which they are of how many. An offer
/// may say whose media is whose.
pub proof fn law_call_frames(
    text: Seq<char>,
    value: JsonView,
    sdp: Seq<char>,
    chunk: Option<ChunkMetaView>,
    tracks: Option<Seq<TrackHintView>>,
    listed: JsonView,
)
    requires
        read(text) == Some(value),
        has_text(value, "sdp"@, sdp),
        chunk is Some ==> has_text(value, "id"@, chunk->0.id) && has(
            value,
            "seq"@,
            JsonView::Num(chunk->0.seq as i64),
        ) && has(value, "total"@, JsonView::Num(chunk->0.total as i64)),
        chunk is None ==> lacks(value, "id"@),
        tracks is Some ==> has(value, "tracks"@, listed) && lists_tracks(listed, tracks->0),
        tracks is None ==> lacks(value, "tracks"@),
    ensures
        has_text(value, "type"@, "offer"@) ==> decoded(text) == Some(
            SignalView::Offer { sdp, tracks, chunk },
        ),
        has_text(value, "type"@, "answer"@) ==> decoded(text) == Some(
            SignalView::Answer { sdp, chunk },
        ),
{
    lemma_names();
    lemma_has(value);
    if tracks is Some {
        lemma_lists_tracks(listed, tracks->0);
    }
}

/// A way to reach a peer comes with the media line that it is for, by name or by number.
pub proof fn law_candidate_frame(
    text: Seq<char>,
    value: JsonView,
    cand: Seq<char>,
    mid: Option<Seq<char>>,
    mlineidx: Option<u32>,
)
    requires
        read(text) == Some(value),
        has_text(value, "type"@, "ice"@),
        has_text(value, "cand"@, cand),
        may_have(value, "mid"@, mid),
        mlineidx is Some ==> has(value, "mlineidx"@, JsonView::Num(mlineidx->0 as i64)),
        mlineidx is None ==> lacks(value, "mlineidx"@),
    ensures
        decoded(text) == Some(SignalView::Ice { cand, mid, mlineidx }),
{
    lemma_names();
    lemma_has(value);
}

/// Being let in says who is there, what kind of room it is, what we may, who publishes, where media
/// can be relayed and whose media is whose, as far as it says so.
pub proof fn law_joined_frame(
    text: Seq<char>,
    value: JsonView,
    listed: JsonView,
    members: Seq<Seq<char>>,
    mode: Option<RoomKind>,
    role: Option<Role>,
    streaming: JsonView,
    streamers: Option<Seq<Seq<char>>>,
    relay: JsonView,
    urls: JsonView,
    turn: Option<TurnCredentialsView>,
)
    requires
        read(text) == Some(value),
        has_text(value, "type"@, "joined"@),
        has(value, "members"@, listed) && lists(listed, members),
        mode is Some ==> has_text(
            value,
            "mode"@,
            if mode->0 == RoomKind::Publish {
                "voice"@
            } else {
                "stream"@
            },
        ),
        mode is None ==> lacks(value, "mode"@),
        role is Some ==> has_text(value, "role"@, role_name(role->0)),
        role is None ==> lacks(value, "role"@),
        streamers is Some ==> has(value, "streamers"@, streaming) && lists(streaming, streamers->0),
        streamers is None ==> lacks(value, "streamers"@),
        turn is Some ==> has(value, "turn"@, relay) && has_text(
            relay,
            "username"@,
            turn->0.username,
        ) && has_text(relay, "password"@, turn->0.password) && has(relay, "urls"@, urls) && lists(
            urls,
            turn->0.urls,
        ),
        turn is None ==> lacks(value, "turn"@),
        lacks(value, "tracks"@),
    ensures
        decoded(text) == Some(
            SignalView::Joined { members, mode, role, streamers, turn, tracks: None },
        ),
{
    lemma_names();
    lemma_words();
    lemma_has(value);
    lemma_lists(listed, members);
    if streamers is Some {
        lemma_lists(streaming, streamers->0);
    }
    if turn is Some {
        lemma_has(relay);
        lemma_lists(urls, turn->0.urls);
    }
}

/// A channel whose name starts with a dollar sign is a room with an audience, and any other is one
/// where all may speak.
pub proof fn law_kind_of_room(channel: Seq<char>)
    ensures
        RoomKind::of_channel(seq!['$'] + channel) == RoomKind::Stream,
        channel.len() > 0 && channel[0] != '$' ==> RoomKind::of_channel(channel)
            == RoomKind::Publish,
{
    assert((seq!['$'] + channel)[0] == '$');
}

/// Two different frames are never written the same.
pub proof fn law_frames_differ(a: SignalView, b: SignalView)
    requires
        encoded(a) == encoded(b),
    ensures
        a == b,
{
    crate::voice::law_decode_encoded(a);
    crate::voice::law_decode_encoded(b);
}

} // verus!

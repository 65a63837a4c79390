use obby_client::room::{Participant, Room};
use obby_client::sdp::{split_sdp, SdpReassembler};
use obby_client::voice::{
    ChunkMeta, OnOff, PresenceState, Role, RoomKind, Signal, ToggleKind, TrackHint, TurnCredentials,
};
use obby_client::wire::{CaseFolded, Casemapping};

fn turn() -> TurnCredentials {
    TurnCredentials {
        urls: vec!["turn:relay.obby.chat:3478".to_string()],
        username: "user1".to_string(),
        password: "pass1".to_string(),
    }
}

fn participant<'a>(room: &'a Room, nick: &str) -> &'a Participant {
    room.participants.get(&CaseFolded::already_folded(nick)).expect("a participant")
}

#[test]
fn join_and_leave_round_trip_with_only_a_channel() {
    let join = Signal::Join {
        channel: "#general".to_string(),
    };
    assert_eq!(join.to_json(), r##"{"type":"join","channel":"#general"}"##);
    assert_eq!(Signal::from_json(&join.to_json()), Some(join));

    let leave = Signal::Leave {
        channel: "^voice".to_string(),
    };
    assert_eq!(leave.to_json(), r#"{"type":"leave","channel":"^voice"}"#);
    assert_eq!(Signal::from_json(&leave.to_json()), Some(leave));
}

#[test]
fn joined_round_trips_with_every_optional_field_present() {
    let joined = Signal::Joined {
        members: vec!["alice".to_string(), "bob".to_string()],
        mode: Some(RoomKind::Stream),
        role: Some(Role::Publisher),
        streamers: Some(vec!["alice".to_string()]),
        turn: Some(turn()),
        tracks: Some(vec![TrackHint {
            mid: "0".to_string(),
            member: "alice".to_string(),
        }]),
    };
    let json = joined.to_json();
    assert!(json.starts_with(r#"{"type":"joined","members":["alice","bob"]"#));
    assert!(json.contains(r#""mode":"stream""#));
    assert!(json.contains(r#""role":"streamer""#));
    assert!(json.contains(r#""streamers":["alice"]"#));
    assert!(json.contains(
        r#""turn":{"urls":["turn:relay.obby.chat:3478"],"username":"user1","password":"pass1"}"#
    ));
    assert!(json.contains(r#""tracks":[{"mid":"0","member":"alice"}]"#));
    assert_eq!(Signal::from_json(&json), Some(joined));
}

#[test]
fn joined_round_trips_with_every_optional_field_absent() {
    let joined = Signal::Joined {
        members: vec!["alice".to_string()],
        mode: None,
        role: None,
        streamers: None,
        turn: None,
        tracks: None,
    };
    assert_eq!(joined.to_json(), r#"{"type":"joined","members":["alice"]}"#);
    assert_eq!(Signal::from_json(&joined.to_json()), Some(joined));
}

#[test]
fn offer_and_answer_round_trip_unchunked() {
    let offer = Signal::Offer {
        sdp: "v=0\r\no=- 0 0 IN IP4 0.0.0.0\r\n".to_string(),
        tracks: None,
        chunk: None,
    };
    assert_eq!(Signal::from_json(&offer.to_json()), Some(offer.clone()));
    assert!(!offer.to_json().contains("\"id\""));

    let answer = Signal::Answer {
        sdp: "v=0\r\n".to_string(),
        chunk: None,
    };
    assert_eq!(Signal::from_json(&answer.to_json()), Some(answer));
}

#[test]
fn offer_and_answer_round_trip_with_chunk_metadata() {
    let offer = Signal::Offer {
        sdp: "partial-sdp".to_string(),
        tracks: None,
        chunk: Some(ChunkMeta {
            id: "abc123".to_string(),
            seq: 1,
            total: 3,
        }),
    };
    let json = offer.to_json();
    assert_eq!(
        json,
        r#"{"type":"offer","sdp":"partial-sdp","id":"abc123","seq":1,"total":3}"#
    );
    assert_eq!(Signal::from_json(&json), Some(offer));
}

#[test]
fn ice_round_trips_with_and_without_mid() {
    let with_mid = Signal::Ice {
        cand: "candidate:1 1 UDP 1 1.2.3.4 5 typ host".to_string(),
        mid: Some("0".to_string()),
        mlineidx: Some(0),
    };
    assert_eq!(Signal::from_json(&with_mid.to_json()), Some(with_mid));

    let without_mid = Signal::Ice {
        cand: "candidate:1 1 UDP 1 1.2.3.4 5 typ host".to_string(),
        mid: None,
        mlineidx: None,
    };
    assert_eq!(
        without_mid.to_json(),
        r#"{"type":"ice","cand":"candidate:1 1 UDP 1 1.2.3.4 5 typ host"}"#
    );
    assert_eq!(Signal::from_json(&without_mid.to_json()), Some(without_mid));
}

#[test]
fn presence_round_trips_all_three_shapes() {
    let membership = Signal::Presence {
        member: "bob".to_string(),
        state: PresenceState::Joined,
        kind: None,
        role: Some(Role::Viewer),
    };
    assert_eq!(
        membership.to_json(),
        r#"{"type":"presence","member":"bob","state":"joined","role":"viewer"}"#
    );
    assert_eq!(Signal::from_json(&membership.to_json()), Some(membership));

    let toggle = Signal::Presence {
        member: "bob".to_string(),
        state: PresenceState::On,
        kind: Some(ToggleKind::Mic),
        role: None,
    };
    assert_eq!(
        toggle.to_json(),
        r#"{"type":"presence","member":"bob","state":"on","kind":"mic"}"#
    );
    assert_eq!(Signal::from_json(&toggle.to_json()), Some(toggle));

    let activity = Signal::Presence {
        member: "bob".to_string(),
        state: PresenceState::DeafOn,
        kind: None,
        role: None,
    };
    assert_eq!(
        activity.to_json(),
        r#"{"type":"presence","member":"bob","state":"deaf-on"}"#
    );
    assert_eq!(Signal::from_json(&activity.to_json()), Some(activity));
}

#[test]
fn the_six_toggle_intents_round_trip() {
    let frames = [
        Signal::Mic { state: OnOff::On },
        Signal::Video { state: OnOff::Off },
        Signal::Screen { state: OnOff::On },
        Signal::Hand { state: OnOff::On },
        Signal::Speaking,
        Signal::Silent,
    ];
    for frame in frames {
        assert_eq!(Signal::from_json(&frame.to_json()), Some(frame));
    }
}

#[test]
fn deaf_is_a_real_outbound_frame_not_only_a_local_flag() {
    let deafen = Signal::Deaf { state: OnOff::On };
    assert_eq!(deafen.to_json(), r#"{"type":"deaf","state":"on"}"#);
    assert_eq!(Signal::from_json(&deafen.to_json()), Some(deafen));
}

#[test]
fn react_round_trips_outbound_and_inbound_shapes() {
    let outbound = Signal::React {
        member: None,
        emoji: "👍".to_string(),
    };
    assert_eq!(outbound.to_json(), r#"{"type":"react","emoji":"👍"}"#);
    assert_eq!(Signal::from_json(&outbound.to_json()), Some(outbound));

    let inbound = Signal::React {
        member: Some("carol".to_string()),
        emoji: "👍".to_string(),
    };
    assert_eq!(
        inbound.to_json(),
        r#"{"type":"react","member":"carol","emoji":"👍"}"#
    );
    assert_eq!(Signal::from_json(&inbound.to_json()), Some(inbound));
}

#[test]
fn promote_demote_and_role_round_trip() {
    let promote = Signal::Promote {
        target: "bob".to_string(),
    };
    assert_eq!(Signal::from_json(&promote.to_json()), Some(promote));

    let demote = Signal::Demote {
        target: "bob".to_string(),
    };
    assert_eq!(Signal::from_json(&demote.to_json()), Some(demote));

    let role = Signal::Role {
        member: "bob".to_string(),
        role: Role::Publisher,
    };
    assert_eq!(
        role.to_json(),
        r#"{"type":"role","member":"bob","role":"streamer"}"#
    );
    assert_eq!(Signal::from_json(&role.to_json()), Some(role));
}

#[test]
fn error_round_trips_with_and_without_a_reason() {
    let with_reason = Signal::Error {
        error: Some("room is full".to_string()),
    };
    assert_eq!(
        with_reason.to_json(),
        r#"{"type":"error","error":"room is full"}"#
    );
    assert_eq!(Signal::from_json(&with_reason.to_json()), Some(with_reason));

    let without_reason = Signal::Error { error: None };
    assert_eq!(without_reason.to_json(), r#"{"type":"error"}"#);
    assert_eq!(
        Signal::from_json(&without_reason.to_json()),
        Some(without_reason)
    );
}

#[test]
fn unknown_frame_types_decode_to_none() {
    assert_eq!(Signal::from_json(r#"{"type":"nonsense"}"#), None);
}

#[test]
fn malformed_json_decodes_to_none() {
    assert_eq!(Signal::from_json("not json"), None);
    assert_eq!(Signal::from_json(r#"{"type":"join""#), None);
    assert_eq!(Signal::from_json(r##"{"channel":"#general"}"##), None);
}

#[test]
fn an_sdp_within_budget_is_not_split() {
    assert_eq!(split_sdp("short sdp", "id1", 8191), None);
}

#[test]
fn an_oversized_sdp_is_split_into_numbered_chunks_sharing_one_id() {
    let sdp = "abcdefghij";
    let chunks = split_sdp(sdp, "call-1", 3).expect("must split");
    assert_eq!(chunks.len(), 4);
    for (seq, chunk) in chunks.iter().enumerate() {
        assert_eq!(chunk.chunk.id, "call-1");
        assert_eq!(chunk.chunk.seq, u32::try_from(seq).unwrap_or(u32::MAX));
        assert_eq!(chunk.chunk.total, 4);
    }
    let joined: String = chunks.iter().map(|c| c.sdp.as_str()).collect();
    assert_eq!(joined, sdp);
}

#[test]
fn a_multibyte_character_is_never_split_across_a_chunk_boundary() {
    let sdp = "a👍b";
    let chunks = split_sdp(sdp, "id", 2).expect("must split");
    for chunk in &chunks {
        assert!(core::str::from_utf8(chunk.sdp.as_bytes()).is_ok());
    }
    let joined: String = chunks.iter().map(|c| c.sdp.as_str()).collect();
    assert_eq!(joined, sdp);
}

#[test]
fn chunks_reassemble_regardless_of_arrival_order() {
    let chunks = split_sdp(&"x".repeat(20), "call-1", 6).expect("must split");
    let mut reassembler = SdpReassembler::new();
    let mut out = None;
    for chunk in chunks.iter().rev() {
        out = reassembler.push(&chunk.chunk, &chunk.sdp);
    }
    assert_eq!(out, Some("x".repeat(20)));
    assert_eq!(reassembler.pending_len(), 0);
}

#[test]
fn a_reassembly_missing_a_chunk_never_completes() {
    let chunks = split_sdp(&"y".repeat(20), "call-2", 6).expect("must split");
    let mut reassembler = SdpReassembler::new();
    for chunk in chunks.iter().take(chunks.len() - 1) {
        assert_eq!(reassembler.push(&chunk.chunk, &chunk.sdp), None);
    }
    assert_eq!(reassembler.pending_len(), 1);
}

#[test]
fn reassembly_rejects_a_total_over_the_configured_bound() {
    let mut reassembler = SdpReassembler::with_bounds(4, 16);
    let chunk = ChunkMeta {
        id: "huge".to_string(),
        seq: 0,
        total: 5,
    };
    assert_eq!(reassembler.push(&chunk, "slice"), None);
    assert_eq!(reassembler.pending_len(), 0);
}

#[test]
fn reassembly_bounds_the_number_of_concurrent_ids() {
    let mut reassembler = SdpReassembler::with_bounds(64, 2);
    for id in ["a", "b"] {
        let chunk = ChunkMeta {
            id: id.to_string(),
            seq: 0,
            total: 2,
        };
        assert_eq!(reassembler.push(&chunk, "part"), None);
    }
    assert_eq!(reassembler.pending_len(), 2);

    let overflow = ChunkMeta {
        id: "c".to_string(),
        seq: 0,
        total: 2,
    };
    assert_eq!(reassembler.push(&overflow, "part"), None);
    assert_eq!(
        reassembler.pending_len(),
        2,
        "a third id must not grow past the configured bound"
    );
}

#[test]
fn dropping_all_forgets_every_partial_reassembly() {
    let mut reassembler = SdpReassembler::new();
    let chunk = ChunkMeta {
        id: "call".to_string(),
        seq: 0,
        total: 2,
    };
    reassembler.push(&chunk, "part");
    reassembler.drop_all();
    assert_eq!(reassembler.pending_len(), 0);
}

#[test]
fn every_member_publishes_in_a_publish_room() {
    let mut room = Room::new("^voice");
    assert_eq!(room.kind, RoomKind::Publish);
    room.apply(
        "me",
        &Signal::Joined {
            members: vec!["me".to_string(), "bob".to_string()],
            mode: None,
            role: None,
            streamers: None,
            turn: None,
            tracks: None,
        },
        Casemapping::Rfc1459,
    );
    for nick in ["me", "bob"] {
        assert_eq!(
            participant(&room, nick).role,
            Role::Publisher
        );
    }
}

#[test]
fn only_the_streamers_publish_in_a_stream_room() {
    let mut room = Room::new("$live");
    assert_eq!(room.kind, RoomKind::Stream);
    room.apply(
        "me",
        &Signal::Joined {
            members: vec!["alice".to_string(), "me".to_string()],
            mode: Some(RoomKind::Stream),
            role: Some(Role::Viewer),
            streamers: Some(vec!["alice".to_string()]),
            turn: None,
            tracks: None,
        },
        Casemapping::Rfc1459,
    );
    assert_eq!(
        participant(&room, "alice").role,
        Role::Publisher
    );
    assert_eq!(
        participant(&room, "me").role,
        Role::Viewer
    );
}

#[test]
fn a_promote_broadcast_updates_the_targets_role() {
    let mut room = Room::new("$live");
    room.apply(
        "me",
        &Signal::Role {
            member: "bob".to_string(),
            role: Role::Publisher,
        },
        Casemapping::Rfc1459,
    );
    assert_eq!(
        participant(&room, "bob").role,
        Role::Publisher
    );
}

#[test]
fn presence_toggles_update_the_matching_participant_flag() {
    let mut room = Room::new("^voice");
    room.participants
        .insert(CaseFolded::already_folded("bob"), Participant::new("bob"));
    room.apply(
        "me",
        &Signal::Presence {
            member: "bob".to_string(),
            state: PresenceState::On,
            kind: Some(ToggleKind::Video),
            role: None,
        },
        Casemapping::Rfc1459,
    );
    assert_eq!(participant(&room, "bob").video, OnOff::On);
    assert_eq!(participant(&room, "bob").mic, OnOff::Off);
}

#[test]
fn one_participant_under_two_spellings_is_one_person() {
    let mut room = Room::new("^voice");
    room.apply(
        "me",
        &Signal::Presence {
            member: "Bob[dev]".to_string(),
            state: PresenceState::Joined,
            kind: None,
            role: None,
        },
        Casemapping::Rfc1459,
    );
    room.apply(
        "me",
        &Signal::Presence {
            member: "bob{dev}".to_string(),
            state: PresenceState::On,
            kind: Some(ToggleKind::Mic),
            role: None,
        },
        Casemapping::Rfc1459,
    );
    assert_eq!(room.participants.len(), 1);
    let participant = room.participants.value_at(0);
    assert_eq!(participant.nick, "Bob[dev]");
    assert_eq!(participant.mic, OnOff::On);
}

#[test]
fn presence_joined_and_left_add_and_remove_participants() {
    let mut room = Room::new("^voice");
    room.apply(
        "me",
        &Signal::Presence {
            member: "bob".to_string(),
            state: PresenceState::Joined,
            kind: None,
            role: None,
        },
        Casemapping::Rfc1459,
    );
    assert!(room.participants.contains_key(&CaseFolded::already_folded("bob")));

    room.apply(
        "me",
        &Signal::Presence {
            member: "bob".to_string(),
            state: PresenceState::Left,
            kind: None,
            role: None,
        },
        Casemapping::Rfc1459,
    );
    assert!(!room.participants.contains_key(&CaseFolded::already_folded("bob")));
}

#[test]
fn deafen_broadcasts_to_the_room_instead_of_staying_local() {
    let mut room = Room::new("^voice");
    room.participants
        .insert(CaseFolded::already_folded("bob"), Participant::new("bob"));
    room.apply(
        "me",
        &Signal::Presence {
            member: "bob".to_string(),
            state: PresenceState::DeafOn,
            kind: None,
            role: None,
        },
        Casemapping::Rfc1459,
    );
    assert_eq!(
        participant(&room, "bob").deaf,
        OnOff::On,
        "the room's model must learn a peer's deafen from presence, the way it learns mic or video"
    );

    let intent = Signal::Deaf { state: OnOff::On };
    assert!(
        intent.to_json().contains("\"type\":\"deaf\""),
        "deafening must produce a real outbound frame, not only flip a local field"
    );
}

fn presence(member: &str, state: PresenceState) -> Signal {
    Signal::Presence { member: member.to_string(), state, kind: None, role: None }
}

#[test]
fn text_is_escaped_and_read_back() {
    let signal = Signal::React {
        member: None,
        emoji: "a\"b\\c\n\u{1}\u{1f600}".to_string(),
    };
    assert_eq!(signal.to_json(), "{\"type\":\"react\",\"emoji\":\"a\\\"b\\\\c\\n\\u0001\u{1f600}\"}");
    assert_eq!(Signal::from_json(&signal.to_json()), Some(signal));
}

#[test]
fn an_escaped_surrogate_pair_is_one_character() {
    assert_eq!(
        Signal::from_json(r#"{"type":"react","emoji":"\ud83d\udc4d"}"#),
        Some(Signal::React { member: None, emoji: "\u{1f44d}".to_string() })
    );
}

#[test]
fn fields_may_come_in_any_order_and_unknown_ones_are_skipped() {
    assert_eq!(
        Signal::from_json(r##" { "extra" : [1, {"a": null}, true] , "channel":"#a","type":"join" } "##),
        Some(Signal::Join { channel: "#a".to_string() })
    );
}

#[test]
fn whoever_leaves_under_another_spelling_is_gone() {
    let mut room = Room::new("^voice");
    room.apply("me", &presence("Bob[dev]", PresenceState::Joined), Casemapping::Rfc1459);
    room.apply("me", &presence("bob{DEV}", PresenceState::Joined), Casemapping::Rfc1459);
    assert_eq!(room.participants.len(), 1);
    room.apply("me", &presence("BOB{dev}", PresenceState::Left), Casemapping::Rfc1459);
    assert!(room.participants.is_empty());
}

#[test]
fn what_a_stranger_does_is_ignored() {
    let mut room = Room::new("^voice");
    room.apply("me", &presence("bob", PresenceState::Speaking), Casemapping::Rfc1459);
    assert!(room.participants.is_empty());
    assert_eq!(Participant::default().role, Role::Viewer);
}

#[test]
fn a_chunk_that_cannot_be_part_of_its_whole_is_refused() {
    let mut reassembler = SdpReassembler::default();
    for (seq, total) in [(2, 2), (0, 0)] {
        let chunk = ChunkMeta { id: "c".to_string(), seq, total };
        assert_eq!(reassembler.push(&chunk, "part"), None);
    }
    assert_eq!(reassembler.pending_len(), 0);
}

#[test]
fn the_pieces_fit_the_budget() {
    let sdp = "0123456789".repeat(3);
    for chunk in split_sdp(&sdp, "id", 7).expect("must split") {
        assert!(chunk.sdp.len() <= 7);
    }
    assert_eq!(split_sdp(&sdp, "id", 30), None);
}

#[test]
fn a_unicode_escape_takes_four_digits_and_no_sign() {
    assert!(Signal::from_json(r#"{"type":"join","channel":"\u+041"}"#).is_none());
    assert_eq!(
        Signal::from_json(r#"{"type":"join","channel":"A"}"#),
        Some(Signal::Join { channel: "A".to_string() })
    );
}

#[test]
fn chunks_reassemble_beside_those_of_others() {
    let first = split_sdp("abcdef", "one", 2).expect("split");
    let second = split_sdp("uvwxyz", "two", 3).expect("split");
    let mut buffer = SdpReassembler::new();
    assert_eq!(buffer.push(&first[2].chunk, &first[2].sdp), None);
    assert_eq!(buffer.push(&second[0].chunk, &second[0].sdp), None);
    assert_eq!(buffer.push(&first[0].chunk, &first[0].sdp), None);
    assert_eq!(buffer.push(&second[1].chunk, &second[1].sdp).as_deref(), Some("uvwxyz"));
    assert_eq!(buffer.push(&first[1].chunk, &first[1].sdp).as_deref(), Some("abcdef"));
    assert_eq!(buffer.pending_len(), 0);
}

use obby_client::e2ee::{reassemble, Frag, Frame, Role, Session, PROTOCOL_VERSION};
use obby_client::handshake::{
    accept_offer, accept_offer_with, complete_handshake, complete_handshake_with, create_offer,
    create_offer_with,
};
use obby_client::identity::{
    keeps_own_offer, Error, Fingerprint, Identity, PeerTrust, PinOutcome, RandomSource,
};
use obby_client::ratchet::{header_aad, pad, unpad, MAX_SKIP, PAD_BLOCK};

struct TestRng(u64);

impl TestRng {
    fn seeded(seed: u64) -> Self {
        Self(seed)
    }
}

impl RandomSource for TestRng {
    fn fill_bytes(&mut self, dest: &mut [u8]) {
        for chunk in dest.chunks_mut(8) {
            self.0 = self.0.wrapping_add(0x9E37_79B9_7F4A_7C15);
            let mut z = self.0;
            z = (z ^ (z >> 30)).wrapping_mul(0xBF58_476D_1CE4_E5B9);
            z = (z ^ (z >> 27)).wrapping_mul(0x94D0_49BB_1331_11EB);
            z ^= z >> 31;
            let bytes = z.to_le_bytes();
            chunk.copy_from_slice(&bytes[..chunk.len()]);
        }
    }
}

struct Pair {
    alice_identity: Identity,
    bob_identity: Identity,
    alice: Session,
    bob: Session,
}

fn establish() -> Pair {
    let mut rng = TestRng::seeded(1);
    let alice_identity = Identity::generate(&mut rng);
    let bob_identity = Identity::generate(&mut rng);
    let mut alice = Session::new();
    let mut bob = Session::new();

    let bundle = alice.start(&alice_identity, &mut rng).unwrap();
    bob.receive_offer(bundle);
    let response = bob.accept(&bob_identity, &mut rng).unwrap();
    assert!(!bob.is_established());

    alice
        .receive_accept(&alice_identity, &response, &mut rng)
        .unwrap();
    assert!(alice.is_established());

    let ack = alice.make_ack().unwrap();
    bob.receive_ack(&ack, &mut rng).unwrap();
    assert!(bob.is_established());

    Pair {
        alice_identity,
        bob_identity,
        alice,
        bob,
    }
}

#[test]
fn full_handshake_establishes_both_sides() {
    let pair = establish();
    assert_eq!(pair.alice.role(), Some(Role::Initiator));
    assert_eq!(pair.bob.role(), Some(Role::Responder));
    assert_eq!(
        pair.alice.peer_fingerprint(),
        Some(pair.bob_identity.fingerprint())
    );
    assert_eq!(
        pair.bob.peer_fingerprint(),
        Some(pair.alice_identity.fingerprint())
    );
}

#[test]
fn accept_alone_does_not_establish() {
    let mut rng = TestRng::seeded(2);
    let alice_identity = Identity::generate(&mut rng);
    let bob_identity = Identity::generate(&mut rng);
    let mut alice = Session::new();
    let mut bob = Session::new();

    let bundle = alice.start(&alice_identity, &mut rng).unwrap();
    bob.receive_offer(bundle);
    bob.accept(&bob_identity, &mut rng).unwrap();

    assert!(!bob.is_established());
    assert_eq!(bob.send(b"hello"), Err(Error::WrongState));
}

#[test]
fn established_session_encrypts_and_decrypts() {
    let mut pair = establish();
    let mut rng = TestRng::seeded(3);

    let ct = pair.alice.send(b"hello bob").unwrap();
    let plaintext = pair.bob.receive(&ct, &mut rng).unwrap();
    assert_eq!(plaintext, b"hello bob");

    let ct = pair.bob.send(b"hello alice").unwrap();
    let plaintext = pair.alice.receive(&ct, &mut rng).unwrap();
    assert_eq!(plaintext, b"hello alice");
}

#[test]
fn out_of_order_delivery_still_decrypts() {
    let mut pair = establish();
    let mut rng = TestRng::seeded(4);

    let first = pair.alice.send(b"one").unwrap();
    let second = pair.alice.send(b"two").unwrap();
    let third = pair.alice.send(b"three").unwrap();

    assert_eq!(pair.bob.receive(&third, &mut rng).unwrap(), b"three");
    assert_eq!(pair.bob.receive(&first, &mut rng).unwrap(), b"one");
    assert_eq!(pair.bob.receive(&second, &mut rng).unwrap(), b"two");
}

#[test]
fn skip_bound_is_enforced() {
    let mut pair = establish();
    let mut rng = TestRng::seeded(5);

    let mut far = pair.alice.send(b"far").unwrap();
    far.n += MAX_SKIP + 1;
    assert_eq!(pair.bob.receive(&far, &mut rng), Err(Error::TooManySkipped));
}

#[test]
fn tampered_ciphertext_fails_to_decrypt() {
    let mut pair = establish();
    let mut rng = TestRng::seeded(6);

    let mut ct = pair.alice.send(b"hello").unwrap();
    let last = ct.ct.len() - 1;
    if let Some(byte) = ct.ct.get_mut(last) {
        *byte ^= 0xFF;
    }
    assert_eq!(pair.bob.receive(&ct, &mut rng), Err(Error::Aead));
}

#[test]
fn forged_responder_signature_is_rejected() {
    let mut rng = TestRng::seeded(7);
    let alice_identity = Identity::generate(&mut rng);
    let bob_identity = Identity::generate(&mut rng);
    let mallory_identity = Identity::generate(&mut rng);
    let mut alice = Session::new();
    let mut bob = Session::new();

    let bundle = alice.start(&alice_identity, &mut rng).unwrap();
    bob.receive_offer(bundle);
    let mut response = bob.accept(&bob_identity, &mut rng).unwrap();

    // splice in an unrelated identity's signing key, simulating an attacker presenting a
    // real user's fingerprint over its own session
    response.sik = mallory_identity.public().signing;

    let result = alice.receive_accept(&alice_identity, &response, &mut rng);
    assert_eq!(result, Err(Error::InvalidSignature));
    assert!(!alice.is_established());
    assert_eq!(alice.peer_fingerprint(), None);
}

#[test]
fn crossing_offers_lower_fingerprint_wins() {
    let mut rng = TestRng::seeded(8);
    let a = Identity::generate(&mut rng).fingerprint();
    let b = Identity::generate(&mut rng).fingerprint();
    let (lower, higher) = if a < b { (a, b) } else { (b, a) };

    assert!(keeps_own_offer(lower, Some(higher)));
    assert!(!keeps_own_offer(higher, Some(lower)));
    assert!(!keeps_own_offer(lower, None));
}

#[test]
fn changed_fingerprint_is_refused() {
    let mut rng = TestRng::seeded(9);
    let alice_identity = Identity::generate(&mut rng);
    let bob_identity = Identity::generate(&mut rng);
    let mallory_identity = Identity::generate(&mut rng);

    let mut alice = Session::new();
    alice.confirm_fingerprint_change(mallory_identity.fingerprint());

    let mut bob = Session::new();
    let bundle = alice.start(&alice_identity, &mut rng).unwrap();
    bob.receive_offer(bundle);
    let response = bob.accept(&bob_identity, &mut rng).unwrap();

    let result = alice.receive_accept(&alice_identity, &response, &mut rng);
    assert_eq!(
        result,
        Err(Error::FingerprintChanged {
            previous: mallory_identity.fingerprint(),
            current: bob_identity.fingerprint(),
        })
    );
    assert!(!alice.is_established());

    alice.confirm_fingerprint_change(bob_identity.fingerprint());
    alice
        .receive_accept(&alice_identity, &response, &mut rng)
        .unwrap();
    assert!(alice.is_established());
}

#[test]
fn safety_number_is_eight_groups_of_four() {
    let mut rng = TestRng::seeded(10);
    let fingerprint = Identity::generate(&mut rng).fingerprint();
    let rendered = fingerprint.safety_number();
    let groups: Vec<&str> = rendered.split(' ').collect();
    assert_eq!(groups.len(), 8);
    for group in groups {
        assert_eq!(group.len(), 4);
        assert!(
            group
                .chars()
                .all(|c| c.is_ascii_hexdigit() && !c.is_ascii_lowercase())
        );
    }
}

#[test]
fn frag_reassembles_in_order_and_rejects_a_gap() {
    let whole = b"hello obby world".to_vec();
    let (first_half, second_half) = whole.split_at(8);
    let fragments = vec![
        Frag {
            id: "abc".into(),
            i: 0,
            n: 2,
            ct: first_half.to_vec(),
        },
        Frag {
            id: "abc".into(),
            i: 1,
            n: 2,
            ct: second_half.to_vec(),
        },
    ];
    assert_eq!(reassemble(&fragments).unwrap(), whole);

    let missing_second = fragments[..1].to_vec();
    assert_eq!(reassemble(&missing_second), Err(Error::Fragmentation));
}

#[test]
fn reject_and_close_transition_state_and_frame() {
    let mut rng = TestRng::seeded(11);
    let alice_identity = Identity::generate(&mut rng);
    let mut alice = Session::new();
    let mut bob = Session::new();

    let bundle = alice.start(&alice_identity, &mut rng).unwrap();
    let offered = bob.receive_offer(bundle.clone());
    assert_eq!(offered, alice_identity.fingerprint());

    let frame = bob.reject(Some("busy".into()));
    assert_eq!(
        frame,
        Frame::Reject {
            reason: Some("busy".into())
        }
    );
    assert!(!bob.is_established());
    alice.receive_reject();
    assert_eq!(alice.send(b"too late"), Err(Error::WrongState));

    let mut pair = establish();
    let frame = pair.alice.close();
    assert_eq!(frame, Frame::Close);
    pair.bob.receive_close();
    assert_eq!(pair.alice.send(b"too late"), Err(Error::WrongState));
    assert_eq!(pair.bob.send(b"too late"), Err(Error::WrongState));

    // the frame set also carries plain content and handshake frames under their own names
    let init = Frame::Init {
        bundle,
        account: Some("alice".into()),
    };
    assert!(matches!(init, Frame::Init { .. }));
    assert_eq!(PROTOCOL_VERSION, 1);
}

#[test]
fn frame_wraps_every_content_and_handshake_variant() {
    let mut pair = establish();
    let ct = pair.alice.send(b"hi").unwrap();
    let msg = Frame::Msg { ct: ct.clone() };
    let media = Frame::Media { ct: ct.clone() };
    let ack = Frame::Ack { ct };
    assert!(matches!(msg, Frame::Msg { .. }));
    assert!(matches!(media, Frame::Media { .. }));
    assert!(matches!(ack, Frame::Ack { .. }));

    let mut rng = TestRng::seeded(12);
    let alice_identity = Identity::generate(&mut rng);
    let bob_identity = Identity::generate(&mut rng);
    let mut alice = Session::new();
    let mut bob = Session::new();
    let bundle = alice.start(&alice_identity, &mut rng).unwrap();
    bob.receive_offer(bundle);
    let response = bob.accept(&bob_identity, &mut rng).unwrap();
    let accept = Frame::Accept {
        response,
        account: None,
    };
    assert!(matches!(accept, Frame::Accept { .. }));
}

#[test]
fn peer_verification_tracks_out_of_band_confirmation() {
    let mut pair = establish();
    assert!(!pair.alice.is_peer_verified());
    pair.alice.mark_peer_verified();
    assert!(pair.alice.is_peer_verified());
    assert!(!pair.bob.is_peer_verified());
}

#[test]
fn the_published_agreement_and_signature_keys_are_derived() {
    // the first key pair of RFC 7748, section 6.1, and the first of RFC 8032, section 7.1
    let agreement = [
        0x77, 0x07, 0x6d, 0x0a, 0x73, 0x18, 0xa5, 0x7d, 0x3c, 0x16, 0xc1, 0x72, 0x51, 0xb2, 0x66,
        0x45, 0xdf, 0x4c, 0x2f, 0x87, 0xeb, 0xc0, 0x99, 0x2a, 0xb1, 0x77, 0xfb, 0xa5, 0x1d, 0xb9,
        0x2c, 0x2a,
    ];
    let signing = [
        0x9d, 0x61, 0xb1, 0x9d, 0xef, 0xfd, 0x5a, 0x60, 0xba, 0x84, 0x4a, 0xf4, 0x92, 0xec, 0x2c,
        0xc4, 0x44, 0x49, 0xc5, 0x69, 0x7b, 0x32, 0x69, 0x19, 0x70, 0x3b, 0xac, 0x03, 0x1c, 0xae,
        0x7f, 0x60,
    ];
    let public = Identity::from_secrets(&agreement, &signing).public();
    assert_eq!(public.agreement[..4], [0x85, 0x20, 0xf0, 0x09]);
    assert_eq!(public.signing[..4], [0xd7, 0x5a, 0x98, 0x01]);
}

#[test]
fn a_fingerprint_is_the_first_half_of_the_digest() {
    let digest: Vec<u8> = (0..32).collect();
    let fingerprint = Fingerprint::of_digest(&digest);
    assert_eq!(fingerprint.safety_number(), "0001 0203 0405 0607 0809 0A0B 0C0D 0E0F");
}

#[test]
fn a_fingerprint_is_a_hash_of_the_signing_key() {
    // SHA-256 of thirty-two zero bytes starts with 66687aad f862bd77
    let fingerprint = Fingerprint::of_signing_key(&[0u8; 32]);
    assert!(fingerprint.safety_number().starts_with("6668 7AAD F862 BD77 "));
}

#[test]
fn a_pin_stays_until_it_is_moved() {
    let a = Fingerprint::of_signing_key(&[1u8; 32]);
    let b = Fingerprint::of_signing_key(&[2u8; 32]);
    let mut trust = PeerTrust::default();
    assert_eq!(trust.pinned(), None);
    assert_eq!(trust.observe(a), PinOutcome::New);
    assert_eq!(trust.observe(a), PinOutcome::Same);
    assert_eq!(trust.observe(b), PinOutcome::Changed { previous: a });
    assert_eq!(trust.pinned(), Some(a));
    trust.set_verified(true);
    assert!(trust.is_verified());
    trust.repin(b);
    assert_eq!(trust.pinned(), Some(b));
    assert!(!trust.is_verified());
}

#[test]
fn padding_is_taken_off_again() {
    for len in [0, 1, PAD_BLOCK - 2, PAD_BLOCK - 1, PAD_BLOCK, 3 * PAD_BLOCK + 5] {
        let plain = vec![0x80u8; len];
        let padded = pad(&plain);
        assert_eq!(padded.len() % PAD_BLOCK, 0);
        assert!(padded.len() > len);
        assert_eq!(unpad(&padded), Some(plain));
    }
    assert_eq!(unpad(&vec![0u8; PAD_BLOCK]), None);
    assert_eq!(unpad(&Vec::new()), None);
}

#[test]
fn a_header_names_the_key_and_both_counts() {
    let aad = header_aad(&[7u8; 32], 1, 0x0203);
    assert_eq!(aad.len(), 40);
    assert_eq!(aad[..32], [7u8; 32]);
    assert_eq!(aad[32..], [0, 0, 0, 1, 0, 0, 2, 3]);
}

#[test]
fn an_unsigned_offer_is_refused() {
    let mut rng = TestRng::seeded(20);
    let alice = Identity::generate(&mut rng);
    let bob = Identity::generate(&mut rng);
    let mut bundle = create_offer(&alice, &mut rng).unwrap().bundle().clone();
    bundle.spk[0] ^= 1;
    assert!(matches!(accept_offer(&bob, &bundle, &mut rng), Err(Error::InvalidSignature)));
}

#[test]
fn the_same_random_bytes_give_the_same_handshake() {
    let mut rng = TestRng::seeded(21);
    let alice = Identity::generate(&mut rng);
    let bob = Identity::generate(&mut rng);
    let offer = create_offer_with(&alice, &[3u8; 32], &[4u8; 32]);
    let again = create_offer_with(&alice, &[3u8; 32], &[4u8; 32]);
    assert_eq!(offer.bundle(), again.bundle());

    let (response, mut responder) = accept_offer_with(&bob, offer.bundle(), &[5u8; 32]).unwrap();
    let mut initiator = complete_handshake_with(&alice, &offer, &response, &[6u8; 32]).unwrap();
    let first = initiator.encrypt(b"one").unwrap();
    assert_eq!(responder.decrypt_with(&first, &[7u8; 32]).unwrap(), b"one");
    let second = responder.encrypt(b"two").unwrap();
    assert_eq!(initiator.decrypt_with(&second, &[8u8; 32]).unwrap(), b"two");
    assert_ne!(first.dh, second.dh);
}

#[test]
fn a_message_that_fails_leaves_the_ratchet_as_it_was() {
    let mut pair = establish();
    let mut rng = TestRng::seeded(22);
    let good = pair.alice.send(b"hello").unwrap();
    let mut bad = good.clone();
    bad.ct[0] ^= 1;
    assert_eq!(pair.bob.receive(&bad, &mut rng), Err(Error::Aead));
    assert_eq!(pair.bob.receive(&good, &mut rng).unwrap(), b"hello");
    assert_eq!(pair.bob.receive(&good, &mut rng), Err(Error::Aead));
}

#[test]
fn messages_of_one_bucket_have_one_length() {
    let mut pair = establish();
    let short = pair.alice.send(b"a").unwrap();
    let longer = pair.alice.send(&[b'b'; PAD_BLOCK - 1]).unwrap();
    let next = pair.alice.send(&[b'c'; PAD_BLOCK]).unwrap();
    assert_eq!(short.ct.len(), longer.ct.len());
    assert!(next.ct.len() > longer.ct.len());
}

#[test]
fn the_order_of_fragments_does_not_matter_and_twins_are_refused() {
    let frag = |i: u32, ct: &[u8]| Frag { id: "a".to_string(), i, n: 2, ct: ct.to_vec() };
    assert_eq!(reassemble(&vec![frag(1, b"cd"), frag(0, b"ab")]).unwrap(), b"abcd");
    assert_eq!(reassemble(&vec![frag(0, b"ab"), frag(0, b"ab")]), Err(Error::Fragmentation));
    assert_eq!(reassemble(&Vec::new()), Err(Error::Fragmentation));
}

#[test]
fn an_acknowledgement_that_does_not_decrypt_changes_nothing() {
    let mut rng = TestRng::seeded(23);
    let alice_identity = Identity::generate(&mut rng);
    let bob_identity = Identity::generate(&mut rng);
    let mut alice = Session::default();
    let mut bob = Session::new();
    let bundle = alice.start(&alice_identity, &mut rng).unwrap();
    bob.receive_offer(bundle);
    let response = bob.accept(&bob_identity, &mut rng).unwrap();
    alice.receive_accept(&alice_identity, &response, &mut rng).unwrap();
    let ack = alice.make_ack().unwrap();
    let mut bad = ack.clone();
    bad.ct[0] ^= 1;
    assert_eq!(bob.receive_ack(&bad, &mut rng), Err(Error::Aead));
    assert!(!bob.is_established());
    bob.receive_ack(&ack, &mut rng).unwrap();
    assert!(bob.is_established());
}

/// Hands out bytes that count up from one fill to the next, and remembers what it was handed.
struct Counting {
    fills: Vec<Vec<u8>>,
}

impl RandomSource for Counting {
    fn fill_bytes(&mut self, dest: &mut [u8]) {
        self.fills.push(dest.to_vec());
        let fill = self.fills.len() as u8;
        for byte in dest.iter_mut() {
            *byte = fill;
        }
    }
}

#[test]
fn an_identity_is_made_of_two_fills_of_the_source() {
    let mut rng = Counting { fills: Vec::new() };
    let drawn = Identity::generate(&mut rng);
    assert_eq!(rng.fills, vec![vec![0u8; 32], vec![0u8; 32]]);
    assert_eq!(drawn.public(), Identity::from_secrets(&[1; 32], &[2; 32]).public());

    let next = Identity::generate(&mut rng);
    assert_eq!(next.public(), Identity::from_secrets(&[3; 32], &[4; 32]).public());
    assert_ne!(drawn.fingerprint(), next.fingerprint());
}

#[test]
fn every_side_of_a_handshake_uses_what_it_draws() {
    let alice = Identity::from_secrets(&[101; 32], &[102; 32]);
    let bob = Identity::from_secrets(&[103; 32], &[104; 32]);

    let mut rng = Counting { fills: Vec::new() };
    let offer = create_offer(&alice, &mut rng).unwrap();
    assert_eq!(rng.fills.len(), 2);
    assert_eq!(offer.bundle(), create_offer_with(&alice, &[1; 32], &[2; 32]).bundle());

    let (response, mut sender) = accept_offer(&bob, offer.bundle(), &mut rng).unwrap();
    assert_eq!(rng.fills.len(), 3);
    let (expected, _) = accept_offer_with(&bob, offer.bundle(), &[3; 32]).unwrap();
    assert_eq!(response, expected);

    let mut completed = complete_handshake(&alice, &offer, &response, &mut rng).unwrap();
    assert_eq!(rng.fills.len(), 4);
    let mut exact = complete_handshake_with(&alice, &offer, &response, &[4; 32]).unwrap();
    let drawn = completed.encrypt(b"hi").unwrap();
    assert_eq!(drawn, exact.encrypt(b"hi").unwrap());

    let plain = sender.decrypt(&drawn, &mut rng).unwrap();
    assert_eq!(plain, b"hi");
    assert_eq!(rng.fills.len(), 5, "the first message of a new chain draws a key");
    let again = completed.encrypt(b"again").unwrap();
    assert_eq!(sender.decrypt(&again, &mut rng).unwrap(), b"again");
    assert_eq!(rng.fills.len(), 5, "the next one of that chain draws none");
}

#[test]
fn nothing_is_drawn_for_an_offer_that_is_not_signed() {
    let alice = Identity::from_secrets(&[1; 32], &[2; 32]);
    let bob = Identity::from_secrets(&[3; 32], &[4; 32]);
    let mut bundle = create_offer_with(&alice, &[5; 32], &[6; 32]).bundle().clone();
    bundle.sig[0] ^= 1;
    let mut rng = Counting { fills: Vec::new() };
    assert!(matches!(accept_offer(&bob, &bundle, &mut rng), Err(Error::InvalidSignature)));
    let mut session = Session::new();
    assert!(matches!(session.accept(&bob, &mut rng), Err(Error::WrongState)));
    session.receive_offer(bundle);
    assert!(matches!(session.accept(&bob, &mut rng), Err(Error::InvalidSignature)));
    assert!(rng.fills.is_empty());
}

#[test]
fn a_message_read_late_is_not_read_again() {
    let mut pair = establish();
    let mut rng = TestRng::seeded(9);
    let late = pair.alice.send(b"late").unwrap();
    let next = pair.alice.send(b"next").unwrap();
    assert_eq!(pair.bob.receive(&next, &mut rng).unwrap(), b"next");
    assert_eq!(pair.bob.receive(&late, &mut rng).unwrap(), b"late");
    assert!(pair.bob.receive(&late, &mut rng).is_err());
    assert!(pair.bob.receive(&next, &mut rng).is_err());
    let after = pair.alice.send(b"after").unwrap();
    assert_eq!(pair.bob.receive(&after, &mut rng).unwrap(), b"after");
}

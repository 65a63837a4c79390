//! What holds of everything that keeps a conversation or a password secret: what is sealed and
//! under which key, what is signed, and what is sent to prove that we know a password.

use vstd::prelude::*;
use vstd::utf8::{decode_utf8, encode_utf8, valid_utf8};

use crate::crypto::{
    base64_bytes, base64_of, ed25519_signature, ed25519_verifies, hkdf_of, hmac_of, sha256_of,
    x25519_of, x25519_public_of, xchacha_sealed,
};
use crate::handshake::{accepted, BundleView, OfferView};
use crate::identity::{fingerprint_of, grouped, keeps_offer, ErrorView, IdentityView, TrustView};
use crate::ratchet::{big_endian, padded, MessageView, RatchetView};
use crate::scram::{ScramError, ScramView};
use crate::text::{decimal, fields, joined};

verus! {

/// The number that four bytes stand for, the highest first.
pub open spec fn number_in(bytes: Seq<u8>) -> int {
    bytes[0] * 0x1000000 + bytes[1] * 0x10000 + bytes[2] * 0x100 + bytes[3]
}

/// A counter is written in four bytes from which it can be read back.
pub proof fn law_counter_is_written(n: u32)
    ensures
        big_endian(n).len() == 4,
        number_in(big_endian(n)) == n,
{
    assert(n / 0x1000000 < 0x100);
    assert((n / 0x1000000) * 0x1000000 + ((n / 0x10000) % 0x100) * 0x10000 + ((n / 0x100) % 0x100)
        * 0x100 + n % 0x100 == n) by (nonlinear_arith);
}

/// A message goes out under our current key with its place in our chain and the length of the chain
/// before it. All of that is authenticated with what is sealed, which is the padded text, under a
/// key that is derived from the chain and used for nothing else. The chain then moves on, and so
/// does the count.
pub proof fn law_message_is_sealed(
    ratchet: RatchetView,
    plain: Seq<u8>,
    msg: MessageView,
    chain: Seq<u8>,
)
    requires
        ratchet.encrypted(plain) == Ok::<MessageView, ErrorView>(msg),
        ratchet.send_chain == Some(chain),
    ensures
        msg.dh == ratchet.dhs_public,
        msg.n == ratchet.n_send,
        msg.pn == ratchet.prev_chain_len,
        ({
            let one = hmac_of(chain, seq![1u8]);
            let none = Seq::new(32, |i: int| 0u8);
            msg.ct == xchacha_sealed(
                hkdf_of(none, one, encode_utf8("obby.world/e2ee message"@), 32),
                hkdf_of(none, one, encode_utf8("obby.world/e2ee nonce"@), 24),
                msg.dh + big_endian(msg.pn) + big_endian(msg.n),
                padded(plain),
            )
        }),
        ratchet.after_encrypt().send_chain == Some(hmac_of(chain, seq![2u8])),
        ratchet.after_encrypt().n_send == ratchet.n_send + 1,
        ratchet.after_encrypt().dhs_public == ratchet.dhs_public,
        ratchet.after_encrypt().recv_chain == ratchet.recv_chain,
        ratchet.after_encrypt().skipped == ratchet.skipped,
        ratchet.after_encrypt().root_key == ratchet.root_key,
{
    assert(crate::crypto::zeros32() =~= Seq::new(32, |i: int| 0u8));
}

/// Nothing is sent without a chain to send it on, nor past the last number.
pub proof fn law_nothing_is_sent_unsealed(ratchet: RatchetView, plain: Seq<u8>)
    ensures
        ratchet.send_chain is None ==> ratchet.encrypted(plain) == Err::<MessageView, ErrorView>(
            ErrorView::NoChain,
        ),
        ratchet.send_chain is Some && ratchet.n_send == u32::MAX ==> ratchet.encrypted(plain) == Err::<
            MessageView,
            ErrorView,
        >(ErrorView::CounterOverflow),
{
}

/// Reading the first message under a new key of the peer's turns us to a new key of our own. What
/// we send next starts a chain of its own, and tells the peer how many messages the last one had,
/// so that the peer can still read those that are late.
pub proof fn law_turn_tells_how_much_was_sent(
    ratchet: RatchetView,
    msg: MessageView,
    fresh: Seq<u8>,
    plain: Seq<u8>,
    next: MessageView,
)
    requires
        ratchet.decrypted(msg, fresh) is Ok,
        !ratchet.holds(msg),
        ratchet.dhr != Some(msg.dh),
        ratchet.after_decrypt(msg, fresh).encrypted(plain) == Ok::<MessageView, ErrorView>(next),
    ensures
        next.pn == ratchet.n_send,
        next.n == 0,
        next.dh == x25519_public_of(fresh),
        ratchet.after_decrypt(msg, fresh).dhr == Some(msg.dh),
        ratchet.after_decrypt(msg, fresh).dhs_secret == fresh,
        ratchet.after_decrypt(msg, fresh).n_recv == msg.n + 1,
{
    let s = ratchet.skipped_to(msg.pn)->Ok_0;
    if ratchet.n_recv < msg.pn {
        lemma_skipping_keeps(ratchet, (msg.pn - ratchet.n_recv) as nat);
    }
    let t = s.turned(msg.dh, fresh)->Ok_0;
    lemma_skipping_keeps(t, (msg.n - t.n_recv) as nat);
}

proof fn lemma_skipping_keeps(ratchet: RatchetView, count: nat)
    requires
        ratchet.n_recv + count <= u32::MAX,
    ensures
        ratchet.skipping(count).n_send == ratchet.n_send,
        ratchet.skipping(count).prev_chain_len == ratchet.prev_chain_len,
        ratchet.skipping(count).send_chain == ratchet.send_chain,
        ratchet.skipping(count).dhs_public == ratchet.dhs_public,
        ratchet.skipping(count).dhs_secret == ratchet.dhs_secret,
        ratchet.skipping(count).root_key == ratchet.root_key,
        ratchet.skipping(count).dhr == ratchet.dhr,
        ratchet.skipping(count).n_recv == ratchet.n_recv + count,
    decreases count,
{
    if count > 0 {
        lemma_skipping_keeps(ratchet, (count - 1) as nat);
    }
}

/// Reading in the middle of a chain leaves what we send on alone.
pub proof fn law_reading_leaves_sending_alone(
    ratchet: RatchetView,
    msg: MessageView,
    fresh: Seq<u8>,
)
    requires
        ratchet.holds(msg) || ratchet.dhr == Some(msg.dh),
    ensures
        ratchet.after_decrypt(msg, fresh).send_chain == ratchet.send_chain,
        ratchet.after_decrypt(msg, fresh).n_send == ratchet.n_send,
        ratchet.after_decrypt(msg, fresh).dhs_public == ratchet.dhs_public,
        ratchet.after_decrypt(msg, fresh).dhs_secret == ratchet.dhs_secret,
        ratchet.after_decrypt(msg, fresh).prev_chain_len == ratchet.prev_chain_len,
        ratchet.after_decrypt(msg, fresh).root_key == ratchet.root_key,
        ratchet.after_decrypt(msg, fresh).dhr == ratchet.dhr,
{
    if !ratchet.holds(msg) && ratchet.n_recv < msg.n {
        lemma_skipping_keeps(ratchet, (msg.n - ratchet.n_recv) as nat);
    }
}

/// An offer holds our public keys, of which those that are ours for good are our identity's and the
/// others are fresh, and our identity's signature over all that the peer will compute with.
pub proof fn law_offer_is_signed(identity: IdentityView, spk: Seq<u8>, opk: Seq<u8>)
    ensures
        ({
            let offer = OfferView::of(identity, spk, opk);
            &&& offer.bundle.ik == identity.public.agreement
            &&& offer.bundle.sik == identity.public.signing
            &&& offer.bundle.spk == x25519_public_of(spk)
            &&& offer.bundle.opk == x25519_public_of(opk)
            &&& offer.bundle.sig == ed25519_signature(
                identity.signing,
                offer.bundle.ik + offer.bundle.spk + offer.bundle.opk,
            )
            &&& offer.spk_secret == spk && offer.opk_secret == opk
        }),
{
}

/// An offer whose signature does not hold is refused. The answer to one that is accepted holds our
/// public keys and our identity's signature over them, and the secret that comes of it mixes all
/// four agreements, so that no one of the keys is enough.
pub proof fn law_answer_mixes_every_key(identity: IdentityView, bundle: BundleView, ek: Seq<u8>)
    ensures
        !ed25519_verifies(bundle.sik, bundle.ik + bundle.spk + bundle.opk, bundle.sig)
            ==> accepted(identity, bundle, ek) == Err::<
            (crate::handshake::ResponseView, RatchetView),
            ErrorView,
        >(ErrorView::InvalidSignature),
        accepted(identity, bundle, ek) is Ok ==> {
            let (response, ratchet) = accepted(identity, bundle, ek)->Ok_0;
            let none = Seq::new(32, |i: int| 0u8);
            let secret = hkdf_of(
                none,
                x25519_of(identity.agreement, bundle.spk) + x25519_of(ek, bundle.ik) + x25519_of(
                    ek,
                    bundle.spk,
                ) + x25519_of(ek, bundle.opk),
                encode_utf8("obby.world/e2ee x3dh"@),
                32,
            );
            let root = hkdf_of(
                secret,
                x25519_of(ek, bundle.spk),
                encode_utf8("obby.world/e2ee root"@),
                64,
            );
            &&& response.ik == identity.public.agreement
            &&& response.sik == identity.public.signing
            &&& response.ek == x25519_public_of(ek)
            &&& response.sig == ed25519_signature(identity.signing, response.ik + response.ek)
            &&& ratchet.root_key == root.subrange(0, 32)
            &&& ratchet.dhr == Some(bundle.spk)
            &&& ratchet.dhs_secret == ek
            &&& x25519_of(identity.agreement, bundle.spk) != none
            &&& x25519_of(ek, bundle.ik) != none
            &&& x25519_of(ek, bundle.spk) != none
            &&& x25519_of(ek, bundle.opk) != none
        },
{
    assert(crate::crypto::zeros32() =~= Seq::new(32, |i: int| 0u8));
}

/// Of two sides that offer at once, the one whose fingerprint is smaller where they first differ
/// keeps its offer; whoever does not know the other's gives way.
pub proof fn law_smaller_fingerprint_offers(own: Seq<u8>, peer: Seq<u8>, i: int)
    requires
        own.len() == peer.len(),
        0 <= i < own.len(),
        forall|j: int| 0 <= j < i ==> own[j] == peer[j],
        own[i] != peer[i],
    ensures
        keeps_offer(own, Some(peer)) == (own[i] < peer[i]),
        !keeps_offer(own, None),
{
    lemma_first_difference(own, peer, 0, i);
}

proof fn lemma_first_difference(a: Seq<u8>, b: Seq<u8>, from: nat, i: int)
    requires
        a.len() == b.len(),
        from <= i < a.len(),
        forall|j: int| 0 <= j < i ==> a[j] == b[j],
        a[i] != b[i],
    ensures
        crate::identity::bytes_precede(a, b, from) == (a[i] < b[i]),
    decreases i - from,
{
    if from < i {
        lemma_first_difference(a, b, from + 1, i);
    }
}

/// A fingerprint is the beginning of the digest of the signing key.
pub proof fn law_fingerprint_is_a_digest(key: Seq<u8>)
    requires
        sha256_of(key).len() == 32,
    ensures
        fingerprint_of(key).len() == 16,
        fingerprint_of(key) == sha256_of(key).subrange(0, 16),
{
    assert(fingerprint_of(key) =~= sha256_of(key).subrange(0, 16));
}

/// The first fingerprint that is seen is pinned, and only another one is refused after that.
pub proof fn law_first_fingerprint_is_pinned(trust: TrustView, first: Seq<u8>, other: Seq<u8>)
    requires
        trust.pinned is None,
    ensures
        !trust.refuses(first),
        trust.seeing(first).pinned == Some(first),
        trust.seeing(first).verified == trust.verified,
        !trust.seeing(first).refuses(first),
        trust.seeing(first).refuses(other) <==> other != first,
{
}

/// The value of a digit.
pub open spec fn digit_in(c: char) -> int {
    if '0' <= c <= '9' {
        c as int - '0' as int
    } else {
        c as int - 'A' as int + 10
    }
}

/// A safety number shows every byte by its two digits, the high one first, in their places.
pub proof fn law_safety_number_shows_every_byte(bytes: Seq<u8>, i: int)
    requires
        0 <= i < bytes.len(),
    ensures
        ({
            let at = 2 * i + i / 2;
            let text = grouped(bytes);
            &&& at + 1 < text.len()
            &&& 16 * digit_in(text[at]) + digit_in(text[at + 1]) == bytes[i]
            &&& 0 <= digit_in(text[at]) < 16
            &&& 0 <= digit_in(text[at + 1]) < 16
        }),
    decreases bytes.len(),
{
    let rest = bytes.drop_last();
    let all = grouped(bytes);
    let last = bytes.len() - 1;
    lemma_grouped_len(bytes);
    lemma_grouped_len(rest);
    if i < last {
        law_safety_number_shows_every_byte(rest, i);
        let at = 2 * i + i / 2;
        assert(all[at] == grouped(rest)[at]);
        assert(all[at + 1] == grouped(rest)[at + 1]);
    } else {
        let b = bytes[last];
        assert(b as int == 16 * (b as int / 16) + b as int % 16);
        let at = 2 * i + i / 2;
        assert(all[at] == crate::identity::hex_digit(b as int / 16));
        assert(all[at + 1] == crate::identity::hex_digit(b as int % 16));
    }
}

proof fn lemma_grouped_len(bytes: Seq<u8>)
    ensures
        bytes.len() == 0 ==> grouped(bytes).len() == 0,
        bytes.len() > 0 ==> grouped(bytes).len() == 2 * bytes.len() + (bytes.len() - 1) / 2,
    decreases bytes.len(),
{
    if bytes.len() > 0 {
        lemma_grouped_len(bytes.drop_last());
    }
}

/// The password is stretched by as many rounds as the server asks for: each round is the code of
/// the round before it, the first that of the salt and the number one, and all of them are added up
/// bit by bit.
pub proof fn law_password_is_stretched(password: Seq<u8>, salt: Seq<u8>, n: nat, i: int)
    requires
        n > 0,
        0 <= i < crate::scram::stretched(password, salt, n).len(),
    ensures
        crate::scram::stretched(password, salt, 1) == hmac_of(
            password,
            salt + seq![0u8, 0u8, 0u8, 1u8],
        ),
        crate::scram::round(password, salt, 1) == hmac_of(
            password,
            salt + seq![0u8, 0u8, 0u8, 1u8],
        ),
        crate::scram::round(password, salt, n + 1) == hmac_of(
            password,
            crate::scram::round(password, salt, n),
        ),
        crate::scram::stretched(password, salt, n + 1)[i] == crate::scram::stretched(
            password,
            salt,
            n,
        )[i] ^ crate::scram::round(password, salt, n + 1)[i],
        crate::scram::stretched(password, salt, n + 1).len() == crate::scram::stretched(
            password,
            salt,
            n,
        ).len(),
{
}

/// What a server reads as our answer to its challenge, and what it computes from it: with the code
/// that it has for our key it takes our key out of our proof, and the digest of that key is the one
/// that it stored. So the proof shows that we know the password, and is of use for this exchange
/// alone.
pub proof fn law_server_can_check_our_proof(
    salted: Seq<u8>,
    auth: Seq<char>,
    i: int,
)
    requires
        0 <= i < hmac_of(salted, encode_utf8("Client Key"@)).len(),
    ensures
        ({
            let key = hmac_of(salted, encode_utf8("Client Key"@));
            let code = hmac_of(sha256_of(key), encode_utf8(auth));
            let sent = crate::scram::proof_of(salted, auth);
            &&& sent.len() == key.len()
            &&& sent[i] ^ code[i] == key[i]
        }),
{
    let key = hmac_of(salted, encode_utf8("Client Key"@));
    let code = hmac_of(sha256_of(key), encode_utf8(auth));
    let (a, b) = (key[i], code[i]);
    assert((a ^ b) ^ b == a) by (bit_vector);
}

/// A text as its characters.
proof fn lemma_scram_marks()
    ensures
        "n="@ =~= seq!['n', '='],
        ",r="@ =~= seq![',', 'r', '='],
        ",p="@ =~= seq![',', 'p', '='],
        "c=biws,r="@ =~= seq!['c', '=', 'b', 'i', 'w', 's', ',', 'r', '='],
        ","@ =~= seq![','],
{
    reveal_strlit("n=");
    reveal_strlit(",r=");
    reveal_strlit(",p=");
    reveal_strlit("c=biws,r=");
    reveal_strlit(",");
}

/// Our first message gives our name and our nonce as they are, where they hold nothing that would
/// have to be written otherwise, and the exchange remembers both and the password.
pub proof fn law_first_message(username: Seq<char>, password: Seq<char>, nonce: Seq<char>)
    requires
        !username.contains('=') && !username.contains(','),
        0 < nonce.len() <= 24,
        forall|i: int| 0 <= i < nonce.len() ==> crate::scram::alnum(#[trigger] nonce[i]),
    ensures
        ({
            let s = ScramView::start(username, password, nonce);
            &&& s.client_first_bare == seq!['n', '='] + username + seq![',', 'r', '='] + nonce
            &&& s.client_nonce == nonce
            &&& s.password == password
        }),
{
    lemma_scram_marks();
    lemma_plain_name(username);
    lemma_kept(nonce);
}

proof fn lemma_plain_name(username: Seq<char>)
    requires
        !username.contains('=') && !username.contains(','),
    ensures
        crate::scram::escaped(username) == username,
    decreases username.len(),
{
    if username.len() > 0 {
        let rest = username.drop_last();
        assert forall|c: char| rest.contains(c) implies username.contains(c) by {
            assert(username[rest.index_of(c)] == c);
        }
        lemma_plain_name(rest);
        assert(username.contains(username[username.len() - 1]));
        assert(rest + seq![username.last()] =~= username);
    }
}

proof fn lemma_kept(nonce: Seq<char>)
    requires
        forall|i: int| 0 <= i < nonce.len() ==> crate::scram::alnum(#[trigger] nonce[i]),
    ensures
        nonce.filter(|c: char| crate::scram::alnum(c)) == nonce,
    decreases nonce.len(),
{
    reveal(Seq::filter);
    if nonce.len() > 0 {
        let rest = nonce.drop_last();
        assert forall|i: int| 0 <= i < rest.len() implies crate::scram::alnum(
            #[trigger] rest[i],
        ) by {
            assert(rest[i] == nonce[i]);
        }
        lemma_kept(rest);
        assert(crate::scram::alnum(nonce[nonce.len() - 1]));
        assert(rest.push(nonce.last()) =~= nonce);
    }
}

/// A challenge says how the server extended our nonce, the salt and the rounds. Our answer repeats
/// the nonce and proves the password over all that was said; the code that the server must send
/// back is then known.
pub proof fn law_challenge_is_answered(
    s: ScramView,
    server: Seq<u8>,
    nonce: Seq<char>,
    salt: Seq<char>,
    salt_bytes: Seq<u8>,
    rounds: u32,
)
    requires
        valid_utf8(server),
        decode_utf8(server) == joined(
            seq![
                seq!['r', '='] + nonce,
                seq!['s', '='] + salt,
                seq!['i', '='] + decimal(rounds as nat),
            ],
            seq![','],
        ),
        !nonce.contains(',') && !salt.contains(','),
        s.client_nonce.is_prefix_of(nonce) && nonce != s.client_nonce,
        base64_bytes(salt) == Some(salt_bytes),
    ensures
        rounds == 0 || rounds > 1_000_000 ==> s.client_final(server) == Err::<Seq<u8>, ScramError>(
            ScramError::TooManyIterations,
        ),
        0 < rounds <= 1_000_000 ==> {
            let bare = seq!['c', '=', 'b', 'i', 'w', 's', ',', 'r', '='] + nonce;
            let salted = crate::scram::stretched(encode_utf8(s.password), salt_bytes, rounds as nat);
            let auth = s.client_first_bare + seq![','] + decode_utf8(server) + seq![','] + bare;
            &&& s.client_final(server) == Ok::<Seq<u8>, ScramError>(
                encode_utf8(
                    bare + seq![',', 'p', '='] + base64_of(crate::scram::proof_of(salted, auth)),
                ),
            )
            &&& s.after(server).auth_message == Some(auth)
            &&& s.after(server).server_key == Some(hmac_of(salted, encode_utf8("Server Key"@)))
        },
{
    lemma_scram_marks();
    let number = decimal(rounds as nat);
    crate::wire_laws::lemma_decimal_read(rounds as nat);
    let a = seq!['r', '='] + nonce;
    let b = seq!['s', '='] + salt;
    let c = seq!['i', '='] + number;
    let parts = seq![a, b, c];
    assert(!a.contains(',')) by {
        if a.contains(',') {
            let k = a.index_of(',');
            assert(k >= 2 && nonce[k - 2] == ',');
        }
    }
    assert(!b.contains(',')) by {
        if b.contains(',') {
            let k = b.index_of(',');
            assert(k >= 2 && salt[k - 2] == ',');
        }
    }
    assert(!c.contains(',')) by {
        if c.contains(',') {
            let k = c.index_of(',');
            assert(k >= 2 && number[k - 2] == ',');
            assert(crate::text::is_digit(number[k - 2]));
        }
    }
    crate::wire_laws::law_joined_falls_apart(parts, ',');
    let text = decode_utf8(server);
    assert(fields(text, ',') == parts);
    assert(a.skip(1).skip(1) =~= nonce);
    assert(b.skip(1).skip(1) =~= salt);
    assert(c.skip(1).skip(1) =~= number);
    assert(parts.skip(1) =~= seq![b, c]);
    assert(seq![b, c].skip(1) =~= seq![c]);
    reveal_with_fuel(crate::scram::first_keyed, 4);
    assert(crate::scram::field_of(text, 'r') == Some(nonce));
    assert(crate::scram::field_of(text, 's') == Some(salt));
    assert(crate::scram::field_of(text, 'i') == Some(number));
    assert(crate::text::unsigned(number, u32::MAX as nat) == Some(rounds as nat));
}

} // verus!

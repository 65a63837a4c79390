//! X3DH key agreement: how two sides that have never met come to one secret.

use vstd::prelude::*;
use vstd::utf8::encode_utf8;

use crate::crypto::{
    ed25519_signature, ed25519_verifies, ed25519_verify, hkdf_of, hkdf_sha256, neutral_point,
    open_secret, seal_secret, secret_bytes, x25519_of, x25519_public, x25519_public_of,
    x25519_shared, zeros32, Secret,
};
use crate::identity::{
    array32, extend_bytes, random_array, Error, ErrorView, Identity, IdentityView, RandomSource,
};
use crate::ratchet::{
    in_step, law_conversation, lemma_fresh_is_unused, message_key, mutual, opened, root_step,
    MessageView, Ratchet, RatchetMessage, RatchetView,
};

verus! {

/// What one side publishes to start a conversation.
#[derive(Debug, Clone, PartialEq, Eq)]
pub struct PreKeyBundle {
    /// The sender's identity agreement key.
    pub ik: [u8; 32],
    /// The sender's identity signing key.
    pub sik: [u8; 32],
    /// A freshly generated signed prekey.
    pub spk: [u8; 32],
    /// The signature over `ik || spk || opk`, by `sik`.
    pub sig: Vec<u8>,
    /// A freshly generated one-time prekey.
    pub opk: [u8; 32],
}

/// What a [`PreKeyBundle`] says.
#[verifier::ext_equal]
pub struct BundleView {
    pub ik: Seq<u8>,
    pub sik: Seq<u8>,
    pub spk: Seq<u8>,
    pub sig: Seq<u8>,
    pub opk: Seq<u8>,
}

impl View for PreKeyBundle {
    type V = BundleView;

    open spec fn view(&self) -> BundleView {
        BundleView {
            ik: self.ik@,
            sik: self.sik@,
            spk: self.spk@,
            sig: self.sig@,
            opk: self.opk@,
        }
    }
}

impl PreKeyBundle {
    pub(crate) fn copy(&self) -> (r: Self)
        ensures
            r@ == self@,
    {
        let sig = vstd::slice::slice_to_vec(self.sig.as_slice());
        PreKeyBundle { ik: self.ik, sik: self.sik, spk: self.spk, sig, opk: self.opk }
    }
}

/// What the other side answers.
#[derive(Debug, Clone, PartialEq, Eq)]
pub struct HandshakeResponse {
    /// The responder's identity agreement key.
    pub ik: [u8; 32],
    /// The responder's identity signing key.
    pub sik: [u8; 32],
    /// A freshly generated ephemeral key, which is the responder's first ratchet key too.
    pub ek: [u8; 32],
    /// The signature over `ik || ek`, by `sik`.
    pub sig: Vec<u8>,
    /// The first ratchet message, of an empty plaintext, which proves that the responder came to
    /// the secret that the initiator will.
    pub boot: RatchetMessage,
}

/// What a [`HandshakeResponse`] says.
#[verifier::ext_equal]
pub struct ResponseView {
    pub ik: Seq<u8>,
    pub sik: Seq<u8>,
    pub ek: Seq<u8>,
    pub sig: Seq<u8>,
    pub boot: MessageView,
}

impl View for HandshakeResponse {
    type V = ResponseView;

    open spec fn view(&self) -> ResponseView {
        ResponseView {
            ik: self.ik@,
            sik: self.sik@,
            ek: self.ek@,
            sig: self.sig@,
            boot: self.boot@,
        }
    }
}

/// The offering side's prekeys, kept until the answer comes. Never sent as they are;
/// [`PreKeyBundle`] is the public half that is.
pub struct PendingOffer {
    bundle: PreKeyBundle,
    spk_secret: Secret,
    opk_secret: Secret,
}

/// What a [`PendingOffer`] holds.
#[verifier::ext_equal]
pub struct OfferView {
    pub bundle: BundleView,
    pub spk_secret: Seq<u8>,
    pub opk_secret: Seq<u8>,
}

impl View for PendingOffer {
    type V = OfferView;

    closed spec fn view(&self) -> OfferView {
        OfferView {
            bundle: self.bundle@,
            spk_secret: secret_bytes(self.spk_secret),
            opk_secret: secret_bytes(self.opk_secret),
        }
    }
}

impl OfferView {
    /// The offer of an identity with these prekeys.
    pub open spec fn of(identity: IdentityView, spk: Seq<u8>, opk: Seq<u8>) -> OfferView {
        let ik = identity.public.agreement;
        OfferView {
            bundle: BundleView {
                ik,
                sik: identity.public.signing,
                spk: x25519_public_of(spk),
                sig: ed25519_signature(
                    identity.signing,
                    ik + x25519_public_of(spk) + x25519_public_of(opk),
                ),
                opk: x25519_public_of(opk),
            },
            spk_secret: spk,
            opk_secret: opk,
        }
    }

    /// True when the public prekeys belong to the secret ones.
    pub open spec fn consistent(self) -> bool {
        &&& self.spk_secret.len() == 32
        &&& self.opk_secret.len() == 32
        &&& self.bundle.spk == x25519_public_of(self.spk_secret)
        &&& self.bundle.opk == x25519_public_of(self.opk_secret)
    }
}

impl BundleView {
    /// True when the bundle is signed by the key that it names.
    pub open spec fn signed(self) -> bool {
        ed25519_verifies(self.sik, self.ik + self.spk + self.opk, self.sig)
    }
}

impl ResponseView {
    /// True when the response is signed by the key that it names.
    pub open spec fn signed(self) -> bool {
        ed25519_verifies(self.sik, self.ik + self.ek, self.sig)
    }
}

/// Four shared secrets as one, unless one of them is degenerate.
pub open spec fn agreed(dh1: Seq<u8>, dh2: Seq<u8>, dh3: Seq<u8>, dh4: Seq<u8>) -> Result<
    Seq<u8>,
    ErrorView,
> {
    if dh1 == zeros32() || dh2 == zeros32() || dh3 == zeros32() || dh4 == zeros32() {
        Err(ErrorView::NonContributoryDh)
    } else {
        Ok(
            hkdf_of(
                zeros32(),
                dh1 + dh2 + dh3 + dh4,
                encode_utf8("obby.world/e2ee x3dh"@),
                32,
            ),
        )
    }
}

/// The secret that the side that answers comes to.
pub open spec fn responder_secret(
    own_identity: Seq<u8>,
    own_ephemeral: Seq<u8>,
    peer_identity: Seq<u8>,
    peer_signed_prekey: Seq<u8>,
    peer_one_time_prekey: Seq<u8>,
) -> Result<Seq<u8>, ErrorView> {
    agreed(
        x25519_of(own_identity, peer_signed_prekey),
        x25519_of(own_ephemeral, peer_identity),
        x25519_of(own_ephemeral, peer_signed_prekey),
        x25519_of(own_ephemeral, peer_one_time_prekey),
    )
}

/// The secret that the side that offered comes to.
pub open spec fn initiator_secret(
    own_signed_prekey: Seq<u8>,
    own_identity: Seq<u8>,
    own_one_time_prekey: Seq<u8>,
    peer_identity: Seq<u8>,
    peer_ephemeral: Seq<u8>,
) -> Result<Seq<u8>, ErrorView> {
    agreed(
        x25519_of(own_signed_prekey, peer_identity),
        x25519_of(own_identity, peer_ephemeral),
        x25519_of(own_signed_prekey, peer_ephemeral),
        x25519_of(own_one_time_prekey, peer_ephemeral),
    )
}

fn concat2(a: &[u8], b: &[u8]) -> (r: Vec<u8>)
    ensures
        r@ == a@ + b@,
{
    let mut out = vstd::slice::slice_to_vec(a);
    extend_bytes(&mut out, b);
    out
}

fn concat3(a: &[u8], b: &[u8], c: &[u8]) -> (r: Vec<u8>)
    ensures
        r@ == a@ + b@ + c@,
{
    let mut out = concat2(a, b);
    extend_bytes(&mut out, c);
    out
}

/// One secret of four, each with whether it is contributory.
fn x3dh_kdf(
    dh1: &([u8; 32], bool),
    dh2: &([u8; 32], bool),
    dh3: &([u8; 32], bool),
    dh4: &([u8; 32], bool),
) -> (r: Result<[u8; 32], Error>)
    requires
        dh1.1 == (dh1.0@ != zeros32()),
        dh2.1 == (dh2.0@ != zeros32()),
        dh3.1 == (dh3.0@ != zeros32()),
        dh4.1 == (dh4.0@ != zeros32()),
    ensures
        match (agreed(dh1.0@, dh2.0@, dh3.0@, dh4.0@), r) {
            (Ok(secret), Ok(got)) => got@ == secret,
            (Err(e), Err(got)) => got@ == e,
            _ => false,
        },
{
    if !dh1.1 || !dh2.1 || !dh3.1 || !dh4.1 {
        return Err(Error::NonContributoryDh);
    }
    let mut ikm = concat3(&dh1.0, &dh2.0, &dh3.0);
    extend_bytes(&mut ikm, &dh4.0);
    let salt: [u8; 32] = [0u8; 32];
    assert(salt@ =~= zeros32());
    let okm = hkdf_sha256(&salt, &ikm, "obby.world/e2ee x3dh".as_bytes(), 32);
    assert(okm@.subrange(0, 32) =~= okm@);
    Ok(array32(&okm, 0))
}

/// The secret of the side that answers.
///
/// It is the secret of the side that offered, whose secrets these public keys belong to.
fn x3dh_secret_responder(
    own_identity: &[u8; 32],
    own_ephemeral: &[u8; 32],
    bundle: &PreKeyBundle,
) -> (r: Result<[u8; 32], Error>)
    ensures
        match (
            responder_secret(own_identity@, own_ephemeral@, bundle.ik@, bundle.spk@, bundle.opk@),
            r,
        ) {
            (Ok(secret), Ok(got)) => got@ == secret,
            (Err(e), Err(got)) => got@ == e,
            _ => false,
        },
        forall|ik: Seq<u8>, spk: Seq<u8>, opk: Seq<u8>|
            #![trigger x25519_public_of(ik), x25519_public_of(spk), x25519_public_of(opk)]
            ik.len() == 32 && spk.len() == 32 && opk.len() == 32 && bundle.ik@ == x25519_public_of(
                ik,
            ) && bundle.spk@ == x25519_public_of(spk) && bundle.opk@ == x25519_public_of(opk)
                ==> match (
                initiator_secret(
                    spk,
                    ik,
                    opk,
                    x25519_public_of(own_identity@),
                    x25519_public_of(own_ephemeral@),
                ),
                r,
            ) {
                (Ok(secret), Ok(got)) => got@ == secret,
                (Err(e), Err(got)) => got@ == e,
                _ => false,
            },
{
    let dh1 = x25519_shared(own_identity, &bundle.spk);
    let dh2 = x25519_shared(own_ephemeral, &bundle.ik);
    let dh3 = x25519_shared(own_ephemeral, &bundle.spk);
    let dh4 = x25519_shared(own_ephemeral, &bundle.opk);
    x3dh_kdf(&dh1, &dh2, &dh3, &dh4)
}

/// The secret of the side that offered, from the opposite pairing.
///
/// It is the secret of the side that answers, whose secrets these public keys belong to.
fn x3dh_secret_initiator(
    pending: &PendingOffer,
    own_identity: &[u8; 32],
    peer_identity: &[u8; 32],
    peer_ephemeral: &[u8; 32],
) -> (r: Result<[u8; 32], Error>)
    ensures
        match (
            initiator_secret(
                pending@.spk_secret,
                own_identity@,
                pending@.opk_secret,
                peer_identity@,
                peer_ephemeral@,
            ),
            r,
        ) {
            (Ok(secret), Ok(got)) => got@ == secret,
            (Err(e), Err(got)) => got@ == e,
            _ => false,
        },
        forall|ik: Seq<u8>, ek: Seq<u8>|
            #![trigger x25519_public_of(ik), x25519_public_of(ek)]
            ik.len() == 32 && ek.len() == 32 && peer_identity@ == x25519_public_of(ik)
                && peer_ephemeral@ == x25519_public_of(ek) ==> match (
                responder_secret(
                    ik,
                    ek,
                    x25519_public_of(own_identity@),
                    x25519_public_of(pending@.spk_secret),
                    x25519_public_of(pending@.opk_secret),
                ),
                r,
            ) {
                (Ok(secret), Ok(got)) => got@ == secret,
                (Err(e), Err(got)) => got@ == e,
                _ => false,
            },
{
    let dh1 = x25519_shared(open_secret(&pending.spk_secret), peer_identity);
    let dh2 = x25519_shared(own_identity, peer_ephemeral);
    let dh3 = x25519_shared(open_secret(&pending.spk_secret), peer_ephemeral);
    let dh4 = x25519_shared(open_secret(&pending.opk_secret), peer_ephemeral);
    x3dh_kdf(&dh1, &dh2, &dh3, &dh4)
}

impl PendingOffer {
    #[verifier::type_invariant]
    closed spec fn well_formed(&self) -> bool {
        self@.consistent()
    }

    /// The public half, which is sent.
    pub fn bundle(&self) -> (r: &PreKeyBundle)
        ensures
            r@ == self@.bundle,
    {
        &self.bundle
    }
}

/// Build the bundle of an identity with these prekeys.
///
/// It is signed by the key that it names, unless its signature begins with the neutral point.
pub fn create_offer_with(identity: &Identity, spk: &[u8; 32], opk: &[u8; 32]) -> (r: PendingOffer)
    ensures
        r@ == OfferView::of(identity@, spk@, opk@),
        r@.bundle.sig.take(32) != neutral_point() ==> r@.bundle.signed(),
{
    let spk_public = x25519_public(spk);
    let opk_public = x25519_public(opk);
    let public = identity.public();
    let signed = concat3(&public.agreement, &spk_public, &opk_public);
    let sig = identity.sign(&signed);
    PendingOffer {
        bundle: PreKeyBundle {
            ik: public.agreement,
            sik: public.signing,
            spk: spk_public,
            sig,
            opk: opk_public,
        },
        spk_secret: seal_secret(spk),
        opk_secret: seal_secret(opk),
    }
}

/// Build the bundle that an offer carries: a fresh signed prekey and one-time prekey, signed
/// together with the identity key by the long-term signing key. The prekeys are what the source
/// fills in, asked once for each.
pub fn create_offer<R: RandomSource>(identity: &Identity, rng: &mut R) -> (r: Result<
    PendingOffer,
    Error,
>)
    ensures
        r is Ok,
        exists|s1: &mut R, d1: &mut [u8], s2: &mut R, d2: &mut [u8]|
            {
                &&& #[trigger] call_ensures(R::fill_bytes, (s1, d1), ())
                &&& #[trigger] call_ensures(R::fill_bytes, (s2, d2), ())
                &&& *s1 == *old(rng)
                &&& *s2 == *final(s1)
                &&& *final(s2) == *final(rng)
                &&& d1@ == zeros32()
                &&& d2@ == zeros32()
                &&& final(d1)@.len() == 32
                &&& final(d2)@.len() == 32
                &&& r->Ok_0@ == OfferView::of(identity@, final(d1)@, final(d2)@)
            },
        r->Ok_0@.bundle.sig.take(32) != neutral_point() ==> r->Ok_0@.bundle.signed(),
{
    let spk = random_array(rng);
    let opk = random_array(rng);
    Ok(create_offer_with(identity, &spk, &opk))
}

/// What the side that answers an offer comes to, with this ephemeral key: its response, and its
/// ratchet. An offer that is not signed by the key that it names gets no further.
pub open spec fn accepted(identity: IdentityView, bundle: BundleView, ek: Seq<u8>) -> Result<
    (ResponseView, RatchetView),
    ErrorView,
> {
    if !bundle.signed() {
        Err(ErrorView::InvalidSignature)
    } else {
        answer_to(identity, bundle, ek)
    }
}

/// What the side that answers a signed offer comes to.
pub open spec fn answer_to(identity: IdentityView, bundle: BundleView, ek: Seq<u8>) -> Result<
    (ResponseView, RatchetView),
    ErrorView,
> {
    match responder_secret(identity.agreement, ek, bundle.ik, bundle.spk, bundle.opk) {
        Err(e) => Err(e),
        Ok(secret) => match RatchetView::responder(
            secret,
            ek,
            x25519_public_of(ek),
            bundle.spk,
        ) {
            Err(e) => Err(e),
            Ok(ratchet) => match ratchet.encrypted(Seq::empty()) {
                Err(e) => Err(e),
                Ok(boot) => Ok(
                    (
                        ResponseView {
                            ik: identity.public.agreement,
                            sik: identity.public.signing,
                            ek: x25519_public_of(ek),
                            sig: ed25519_signature(
                                identity.signing,
                                identity.public.agreement + x25519_public_of(ek),
                            ),
                            boot,
                        },
                        ratchet.after_encrypt(),
                    ),
                ),
            },
        },
    }
}

/// True when the side that made this offer, once it has this answer, completes the handshake and
/// reads what this ratchet sends next. The answer must be signed, and share a secret with the fresh
/// key of the side that completes.
pub open spec fn completes(
    bundle: BundleView,
    response: ResponseView,
    ratchet: RatchetView,
) -> bool {
    forall|peer: IdentityView, spk: Seq<u8>, opk: Seq<u8>, fresh: Seq<u8>|
        peer.consistent() && spk.len() == 32 && opk.len() == 32 && OfferView::of(
            peer,
            spk,
            opk,
        ).bundle == bundle && response.signed() && x25519_of(fresh, response.ek) != zeros32()
            ==> match #[trigger] completed(peer, OfferView::of(peer, spk, opk), response, fresh) {
            Ok(other) => in_step(ratchet, other),
            Err(_) => false,
        }
}

fn bundle_is_signed(bundle: &PreKeyBundle) -> (r: bool)
    ensures
        r == bundle@.signed(),
{
    let signed = concat3(&bundle.ik, &bundle.spk, &bundle.opk);
    ed25519_verify(&bundle.sik, &signed, &bundle.sig)
}

fn answer_signed(identity: &Identity, bundle: &PreKeyBundle, ek: &[u8; 32]) -> (r: Result<
    (HandshakeResponse, Ratchet),
    Error,
>)
    ensures
        match (answer_to(identity@, bundle@, ek@), r) {
            (Ok((response, ratchet)), Ok((got, state))) => {
                &&& got@ == response
                &&& state@ == ratchet
                &&& got@.sig.take(32) != neutral_point() ==> got@.signed()
                &&& completes(bundle@, got@, state@)
            },
            (Err(e), Err(got)) => got@ == e,
            _ => false,
        },
{
    let ek_public = x25519_public(ek);
    let secret = match x3dh_secret_responder(identity.agreement_secret(), ek, bundle) {
        Ok(secret) => secret,
        Err(e) => return Err(e),
    };
    let mut ratchet = match Ratchet::init_as_responder(&secret, ek, &ek_public, &bundle.spk) {
        Ok(ratchet) => ratchet,
        Err(e) => return Err(e),
    };
    let ghost fresh_ratchet = ratchet@;
    let nothing: [u8; 0] = [];
    assert(nothing@ =~= Seq::<u8>::empty());
    let boot = match ratchet.encrypt(&nothing) {
        Ok(boot) => boot,
        Err(e) => return Err(e),
    };
    let public = identity.public();
    let signed = concat2(&public.agreement, &ek_public);
    let sig = identity.sign(&signed);
    let response = HandshakeResponse {
        ik: public.agreement,
        sik: public.signing,
        ek: ek_public,
        sig,
        boot,
    };
    proof {
        assert forall|peer: IdentityView, spk: Seq<u8>, opk: Seq<u8>, fresh: Seq<u8>|
            peer.consistent() && spk.len() == 32 && opk.len() == 32 && OfferView::of(
                peer,
                spk,
                opk,
            ).bundle == bundle@ && response@.signed() && x25519_of(fresh, response@.ek)
                != zeros32() implies match #[trigger] completed(
            peer,
            OfferView::of(peer, spk, opk),
            response@,
            fresh,
        ) {
            Ok(other) => in_step(ratchet@, other),
            Err(_) => false,
        } by {
            lemma_answer_is_completed(
                identity@,
                peer,
                spk,
                opk,
                fresh,
                ek@,
                secret@,
                fresh_ratchet,
                response@,
            );
        }
    }
    Ok((response, ratchet))
}

/// The side that made an offer completes the handshake on its answer.
proof fn lemma_answer_is_completed(
    identity: IdentityView,
    peer: IdentityView,
    spk: Seq<u8>,
    opk: Seq<u8>,
    fresh: Seq<u8>,
    ek: Seq<u8>,
    secret: Seq<u8>,
    ratchet: RatchetView,
    response: ResponseView,
)
    requires
        spk.len() == 32,
        mutual(ek, x25519_public_of(spk)),
        initiator_secret(spk, peer.agreement, opk, response.ik, response.ek) == Ok::<
            Seq<u8>,
            ErrorView,
        >(secret),
        response.signed(),
        response.ek == x25519_public_of(ek),
        x25519_of(fresh, response.ek) != zeros32(),
        RatchetView::responder(secret, ek, x25519_public_of(ek), x25519_public_of(spk)) == Ok::<
            RatchetView,
            ErrorView,
        >(ratchet),
        ratchet.encrypted(Seq::empty()) == Ok::<MessageView, ErrorView>(response.boot),
        opened(message_key(ratchet.send_chain->0), response.boot) == Ok::<Seq<u8>, ErrorView>(
            Seq::empty(),
        ),
    ensures
        match completed(peer, OfferView::of(peer, spk, opk), response, fresh) {
            Ok(other) => in_step(ratchet.after_encrypt(), other),
            Err(_) => false,
        },
{
    let other = RatchetView::initiator(secret, spk, x25519_public_of(spk));
    assert(answered(peer, OfferView::of(peer, spk, opk), response) == Ok::<RatchetView, ErrorView>(
        other,
    ));
    assert(x25519_of(ek, x25519_public_of(spk)) == x25519_of(spk, x25519_public_of(ek)));
    assert(other.expects(ratchet, fresh));
    law_conversation(ratchet, other, Seq::empty(), response.boot, fresh);
}

/// True when `r` is what answering an offer gives, with this ephemeral key. The answer is signed by
/// the key that it names, unless its signature begins with the neutral point, and whoever made the
/// offer completes the handshake on it.
pub open spec fn answers(
    identity: IdentityView,
    bundle: BundleView,
    ek: Seq<u8>,
    r: Result<(HandshakeResponse, Ratchet), Error>,
) -> bool {
    match (accepted(identity, bundle, ek), r) {
        (Ok((response, ratchet)), Ok((got, state))) => {
            &&& got@ == response
            &&& state@ == ratchet
            &&& got@.sig.take(32) != neutral_point() ==> got@.signed()
            &&& completes(bundle, got@, state@)
        },
        (Err(e), Err(got)) => got@ == e,
        _ => false,
    }
}

/// Answer an offer, with this ephemeral key.
///
/// Whoever made the offer completes the handshake on the answer. The answer is signed by the key
/// that it names, unless its signature begins with the neutral point.
pub fn accept_offer_with(identity: &Identity, bundle: &PreKeyBundle, ek: &[u8; 32]) -> (r: Result<
    (HandshakeResponse, Ratchet),
    Error,
>)
    ensures
        answers(identity@, bundle@, ek@, r),
{
    if !bundle_is_signed(bundle) {
        return Err(Error::InvalidSignature);
    }
    answer_signed(identity, bundle, ek)
}

/// Answer an offer: verify its signature, derive the shared secret, and open a sending ratchet
/// whose first message proves that we derived it.
///
/// The signature is checked before anything else touches the bundle's keys, so there is no path
/// from an unverified bundle to a live ratchet or a pinned fingerprint.
///
/// The ephemeral key is what the source fills in, asked once; for a bundle that is not signed it is
/// not asked. Whoever made the offer completes the handshake on the answer.
pub fn accept_offer<R: RandomSource>(
    identity: &Identity,
    bundle: &PreKeyBundle,
    rng: &mut R,
) -> (r: Result<(HandshakeResponse, Ratchet), Error>)
    ensures
        bundle@.signed() ==> exists|source: &mut R, dest: &mut [u8]|
            {
                &&& #[trigger] call_ensures(R::fill_bytes, (source, dest), ())
                &&& *source == *old(rng)
                &&& *final(source) == *final(rng)
                &&& dest@ == zeros32()
                &&& final(dest)@.len() == 32
                &&& answers(identity@, bundle@, final(dest)@, r)
            },
        !bundle@.signed() ==> *final(rng) == *old(rng) && r is Err && r->Err_0@
            == ErrorView::InvalidSignature,
{
    if !bundle_is_signed(bundle) {
        return Err(Error::InvalidSignature);
    }
    let ek = random_array(rng);
    let r = answer_signed(identity, bundle, &ek);
    assert(answers(identity@, bundle@, ek@, r));
    r
}

/// The ratchet that the side that offered opens on a response, before it has read the first
/// message. A response that is not signed by the key that it names gets no further.
pub open spec fn answered(
    identity: IdentityView,
    pending: OfferView,
    response: ResponseView,
) -> Result<RatchetView, ErrorView> {
    if !response.signed() {
        Err(ErrorView::InvalidSignature)
    } else {
        match initiator_secret(
            pending.spk_secret,
            identity.agreement,
            pending.opk_secret,
            response.ik,
            response.ek,
        ) {
            Err(e) => Err(e),
            Ok(secret) => Ok(
                RatchetView::initiator(secret, pending.spk_secret, pending.bundle.spk),
            ),
        }
    }
}

/// What the side that offered comes to, once the first message opened.
pub open spec fn completed(
    identity: IdentityView,
    pending: OfferView,
    response: ResponseView,
    fresh: Seq<u8>,
) -> Result<RatchetView, ErrorView> {
    match answered(identity, pending, response) {
        Err(e) => Err(e),
        Ok(ratchet) => match ratchet.decrypted(response.boot, fresh) {
            Err(e) => Err(e),
            Ok(_) => Ok(ratchet.after_decrypt(response.boot, fresh)),
        },
    }
}

/// True when the ratchet that we open on an answer starts from the secret of the side that gave it.
pub open spec fn agrees(
    identity: IdentityView,
    pending: OfferView,
    response: ResponseView,
    ratchet: RatchetView,
) -> bool {
    &&& identity.consistent()
    &&& pending.consistent()
    &&& forall|ik: Seq<u8>, ek: Seq<u8>|
        #![trigger x25519_public_of(ik), x25519_public_of(ek)]
        ik.len() == 32 && ek.len() == 32 && response.ik == x25519_public_of(ik) && response.ek
            == x25519_public_of(ek) ==> responder_secret(
            ik,
            ek,
            identity.public.agreement,
            pending.bundle.spk,
            pending.bundle.opk,
        ) == Ok::<Seq<u8>, ErrorView>(ratchet.root_key)
}

/// True when the side that gave this answer to our offer expects what this ratchet sends next, and
/// comes to its root when it turns to its key. The fresh key of the ratchet must not be the prekey
/// that it follows, and must share a secret with each key that the other side turns to it with.
pub open spec fn expected(
    identity: IdentityView,
    pending: OfferView,
    response: ResponseView,
    ratchet: RatchetView,
) -> bool {
    forall|peer: IdentityView, ek: Seq<u8>, next: Seq<u8>|
        {
            let other = accepted(peer, pending.bundle, ek)->Ok_0.1;
            &&& peer.consistent()
            &&& ek.len() == 32
            &&& accepted(peer, pending.bundle, ek) is Ok
            &&& accepted(peer, pending.bundle, ek)->Ok_0.0 == response
            &&& pending.bundle.ik == identity.public.agreement
            &&& pending.bundle.spk != ratchet.dhs_public
            &&& other.turned(ratchet.dhs_public, next) is Ok
        } ==> {
            let other = accepted(peer, pending.bundle, ek)->Ok_0.1;
            &&& #[trigger] accepted(peer, pending.bundle, ek)->Ok_0.1.expects(ratchet, next)
            &&& ratchet.root_key == root_step(
                other.root_key,
                x25519_of(other.dhs_secret, ratchet.dhs_public),
            ).0
        }
}

fn open_answer(identity: &Identity, pending: &PendingOffer, response: &HandshakeResponse) -> (r:
    Result<Ratchet, Error>)
    ensures
        match (answered(identity@, pending@, response@), r) {
            (Ok(view), Ok(got)) => {
                &&& got@ == view
                &&& agrees(identity@, pending@, response@, got@)
            },
            (Err(e), Err(got)) => got@ == e,
            _ => false,
        },
{
    proof {
        use_type_invariant(pending);
    }
    let signed = concat2(&response.ik, &response.ek);
    if !ed25519_verify(&response.sik, &signed, &response.sig) {
        return Err(Error::InvalidSignature);
    }
    let secret = match x3dh_secret_initiator(
        pending,
        identity.agreement_secret(),
        &response.ik,
        &response.ek,
    ) {
        Ok(secret) => secret,
        Err(e) => return Err(e),
    };
    Ok(
        Ratchet::init_as_initiator(
            &secret,
            open_secret(&pending.spk_secret),
            &pending.bundle.spk,
        ),
    )
}

/// True when `r` is what completing the handshake gives, with `fresh` as our next ratchet key.
/// Whoever gave the answer expects what we send next.
pub open spec fn completes_with(
    identity: IdentityView,
    pending: OfferView,
    response: ResponseView,
    fresh: Seq<u8>,
    r: Result<Ratchet, Error>,
) -> bool {
    match (completed(identity, pending, response, fresh), r) {
        (Ok(view), Ok(got)) => {
            &&& got@ == view
            &&& expected(identity, pending, response, got@)
        },
        (Err(e), Err(got)) => got@ == e,
        _ => false,
    }
}

/// True when completing the handshake calls for a fresh ratchet key: the response is good, and its
/// first message makes the ratchet turn.
pub open spec fn completing_draws(
    identity: IdentityView,
    pending: OfferView,
    response: ResponseView,
) -> bool {
    match answered(identity, pending, response) {
        Ok(ratchet) => ratchet.needs_fresh(response.boot),
        Err(_) => false,
    }
}

/// Complete the handshake, with `fresh` as our next ratchet key.
///
/// Whoever gave the answer expects what we send next.
pub fn complete_handshake_with(
    identity: &Identity,
    pending: &PendingOffer,
    response: &HandshakeResponse,
    fresh: &[u8; 32],
) -> (r: Result<Ratchet, Error>)
    ensures
        completes_with(identity@, pending@, response@, fresh@, r),
{
    let mut ratchet = match open_answer(identity, pending, response) {
        Ok(ratchet) => ratchet,
        Err(e) => return Err(e),
    };
    let ghost opened = ratchet@;
    match ratchet.decrypt_with(&response.boot, fresh) {
        Ok(_) => {
            proof {
                lemma_completion_is_expected(identity@, pending@, response@, opened, fresh@);
            }
            Ok(ratchet)
        },
        Err(e) => Err(e),
    }
}

/// Complete the handshake: verify the responder's signature over its ephemeral key, derive the
/// shared secret, and decrypt the first message.
///
/// The signature is checked before the signing key is used for anything else, so no fingerprint of
/// an unverified peer is reached. Whoever gave the answer expects what we send next.
///
/// Our next ratchet key is what the source fills in, asked once. Where no such key is called for the
/// source is not asked, and the outcome is the same for every key.
pub fn complete_handshake<R: RandomSource>(
    identity: &Identity,
    pending: &PendingOffer,
    response: &HandshakeResponse,
    rng: &mut R,
) -> (r: Result<Ratchet, Error>)
    ensures
        completing_draws(identity@, pending@, response@) ==> exists|
            source: &mut R,
            dest: &mut [u8],
        |
            {
                &&& #[trigger] call_ensures(R::fill_bytes, (source, dest), ())
                &&& *source == *old(rng)
                &&& *final(source) == *final(rng)
                &&& dest@ == zeros32()
                &&& final(dest)@.len() == 32
                &&& completes_with(identity@, pending@, response@, final(dest)@, r)
            },
        !completing_draws(identity@, pending@, response@) ==> *final(rng) == *old(rng) && (forall|
            fresh: Seq<u8>,
        |
            fresh.len() == 32 ==> #[trigger] completes_with(
                identity@,
                pending@,
                response@,
                fresh,
                r,
            )),
{
    let mut ratchet = match open_answer(identity, pending, response) {
        Ok(ratchet) => ratchet,
        Err(e) => return Err(e),
    };
    let ghost opened = ratchet@;
    let fresh = ratchet.fresh_for(&response.boot, rng);
    let r = match ratchet.decrypt_with(&response.boot, &fresh) {
        Ok(_) => {
            proof {
                lemma_completion_is_expected(identity@, pending@, response@, opened, fresh@);
            }
            Ok(ratchet)
        },
        Err(e) => Err(e),
    };
    assert(completes_with(identity@, pending@, response@, fresh@, r));
    proof {
        if !opened.needs_fresh(response@.boot) {
            assert forall|other: Seq<u8>| other.len() == 32 implies #[trigger] completes_with(
                identity@,
                pending@,
                response@,
                other,
                r,
            ) by {
                lemma_fresh_is_unused(opened, response@.boot, fresh@, other);
            }
        }
    }
    r
}

/// The side that answered expects what the side that offered sends once it has completed.
proof fn lemma_completion_is_expected(
    identity: IdentityView,
    pending: OfferView,
    response: ResponseView,
    opened: RatchetView,
    fresh: Seq<u8>,
)
    requires
        fresh.len() == 32,
        answered(identity, pending, response) == Ok::<RatchetView, ErrorView>(opened),
        agrees(identity, pending, response, opened),
        opened.decrypted(response.boot, fresh) is Ok,
        opened.turns_on(response.boot) ==> mutual(opened.dhs_secret, response.boot.dh) && mutual(
            fresh,
            response.boot.dh,
        ),
    ensures
        expected(identity, pending, response, opened.after_decrypt(response.boot, fresh)),
{
    let ratchet = opened.after_decrypt(response.boot, fresh);
    assert forall|peer: IdentityView, ek: Seq<u8>, next: Seq<u8>|
        {
            let other = accepted(peer, pending.bundle, ek)->Ok_0.1;
            &&& peer.consistent()
            &&& ek.len() == 32
            &&& accepted(peer, pending.bundle, ek) is Ok
            &&& accepted(peer, pending.bundle, ek)->Ok_0.0 == response
            &&& pending.bundle.ik == identity.public.agreement
            &&& pending.bundle.spk != ratchet.dhs_public
            &&& other.turned(ratchet.dhs_public, next) is Ok
        } implies {
        let other = accepted(peer, pending.bundle, ek)->Ok_0.1;
        &&& #[trigger] accepted(peer, pending.bundle, ek)->Ok_0.1.expects(ratchet, next)
        &&& ratchet.root_key == root_step(
            other.root_key,
            x25519_of(other.dhs_secret, ratchet.dhs_public),
        ).0
    } by {
        let other = accepted(peer, pending.bundle, ek)->Ok_0.1;
        let secret = opened.root_key;
        assert(response.ek == x25519_public_of(ek));
        assert(response.ik == x25519_public_of(peer.agreement));
        assert(responder_secret(
            peer.agreement,
            ek,
            pending.bundle.ik,
            pending.bundle.spk,
            pending.bundle.opk,
        ) == Ok::<Seq<u8>, ErrorView>(secret));
        assert(response.boot.dh == x25519_public_of(ek));
        assert(response.boot.n == 0 && response.boot.pn == 0);
        assert(opened.turns_on(response.boot));
        assert(opened.readied(response.boot, fresh) == opened.turned(response.boot.dh, fresh));
        assert(x25519_of(opened.dhs_secret, response.boot.dh) == x25519_of(
            ek,
            pending.bundle.spk,
        ));
        assert(x25519_of(fresh, response.boot.dh) == x25519_of(ek, x25519_public_of(fresh)));
        assert(ratchet.dhs_public == x25519_public_of(fresh));
        assert(other.dhs_secret == ek);
        let turned = opened.turned(response.boot.dh, fresh)->Ok_0;
        assert(ratchet.send_chain == turned.send_chain);
        assert(in_step(ratchet, other.turned(ratchet.dhs_public, next)->Ok_0));
    }
}

/// An offer that is not signed by the key that it names is refused, whatever its keys are.
pub proof fn law_unsigned_offer_is_refused(
    identity: IdentityView,
    bundle: BundleView,
    ek: Seq<u8>,
)
    requires
        !bundle.signed(),
    ensures
        accepted(identity, bundle, ek) == Err::<(ResponseView, RatchetView), ErrorView>(
            ErrorView::InvalidSignature,
        ),
{
}

/// A response that is not signed by the key that it names is refused, whatever its keys are.
pub proof fn law_unsigned_response_is_refused(
    identity: IdentityView,
    pending: OfferView,
    response: ResponseView,
    fresh: Seq<u8>,
)
    requires
        !response.signed(),
    ensures
        completed(identity, pending, response, fresh) == Err::<RatchetView, ErrorView>(
            ErrorView::InvalidSignature,
        ),
{
}

} // verus!

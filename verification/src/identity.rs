//! Who the two sides of an encrypted conversation are: long-term keys, fingerprints, and trust on
//! first use.
//!
//! There is no entropy source here: every function that needs randomness takes it through
//! [`RandomSource`], which the host fills from whatever generator it already holds.

use vstd::prelude::*;

use crate::crypto::{
    ed25519_public, ed25519_public_of, ed25519_sign, ed25519_signature, ed25519_verifies,
    neutral_point, open_secret, seal_secret, secret_bytes, sha256, sha256_of, x25519_public,
    x25519_public_of, zeros32, Secret,
};

verus! {

/// Everything that can go wrong: a doomed handshake, a ratchet that refuses to advance, or a caller
/// asking for a transition that the state does not allow.
#[derive(Debug, Clone, Copy, PartialEq, Eq)]
pub enum Error {
    /// A signature that the protocol requires did not verify.
    InvalidSignature,
    /// A Diffie-Hellman output was non-contributory: a degenerate public key, which key derivation
    /// would otherwise turn into a predictable key.
    NonContributoryDh,
    /// Encryption failed: on decrypt, a tampered, misrouted or foreign ciphertext; on encrypt, a
    /// text too long to encrypt.
    Aead,
    /// A decrypted plaintext's padding was not well-formed.
    Padding,
    /// A message implied a skip-ahead of more than `MAX_SKIP` messages in one jump.
    TooManySkipped,
    /// A message counter would overflow, which cannot happen in a real conversation.
    CounterOverflow,
    /// There is no established sending or receiving chain to use yet.
    NoChain,
    /// The peer's fingerprint changed since it was first pinned. The caller must confirm the change
    /// before the same operation can succeed.
    FingerprintChanged {
        /// The fingerprint pinned from an earlier conversation.
        previous: Fingerprint,
        /// The fingerprint just observed.
        current: Fingerprint,
    },
    /// The session is not in a state that allows this operation.
    WrongState,
    /// A set of fragments could not be reassembled: a mismatched `id` or `n`, a duplicate or
    /// out-of-range index, or a missing piece.
    Fragmentation,
    /// An underlying primitive rejected an input that is always constructed to be valid. Never
    /// occurs.
    Internal,
}

/// What an [`Error`] says.
pub enum ErrorView {
    InvalidSignature,
    NonContributoryDh,
    Aead,
    Padding,
    TooManySkipped,
    CounterOverflow,
    NoChain,
    FingerprintChanged { previous: Seq<u8>, current: Seq<u8> },
    WrongState,
    Fragmentation,
    Internal,
}

impl View for Error {
    type V = ErrorView;

    open spec fn view(&self) -> ErrorView {
        match self {
            Error::InvalidSignature => ErrorView::InvalidSignature,
            Error::NonContributoryDh => ErrorView::NonContributoryDh,
            Error::Aead => ErrorView::Aead,
            Error::Padding => ErrorView::Padding,
            Error::TooManySkipped => ErrorView::TooManySkipped,
            Error::CounterOverflow => ErrorView::CounterOverflow,
            Error::NoChain => ErrorView::NoChain,
            Error::FingerprintChanged { previous, current } => ErrorView::FingerprintChanged {
                previous: previous@,
                current: current@,
            },
            Error::WrongState => ErrorView::WrongState,
            Error::Fragmentation => ErrorView::Fragmentation,
            Error::Internal => ErrorView::Internal,
        }
    }
}

/// A source of random bytes, supplied by the caller.
///
/// A caller fills this from a generator it already holds, or from a fixed seed for reproducible
/// tests.
pub trait RandomSource {
    /// Fill `dest` with bytes suitable for key material.
    fn fill_bytes(&mut self, dest: &mut [u8]);
}

/// Thirty-two random bytes: what the source makes of thirty-two zeros, when it is asked once to
/// fill them.
pub(crate) fn random_array<R: RandomSource>(rng: &mut R) -> (r: [u8; 32])
    ensures
        exists|source: &mut R, dest: &mut [u8]|
            {
                &&& #[trigger] call_ensures(R::fill_bytes, (source, dest), ())
                &&& *source == *old(rng)
                &&& *final(source) == *final(rng)
                &&& dest@ == zeros32()
                &&& final(dest)@ == r@
            },
{
    let mut bytes: [u8; 32] = [0u8; 32];
    assert(bytes@ =~= zeros32());
    rng.fill_bytes(&mut bytes);
    bytes
}

/// Thirty-two bytes of a list, from a place on.
pub(crate) fn array32(v: &Vec<u8>, from: usize) -> (r: [u8; 32])
    requires
        from + 32 <= v@.len(),
    ensures
        r@ == v@.subrange(from as int, from + 32),
{
    let mut out: [u8; 32] = [0u8; 32];
    let mut i: usize = 0;
    while i < 32
        invariant
            i <= 32,
            from + 32 <= v.len(),
            forall|j: int| 0 <= j < i ==> out@[j] == v@[from + j],
        decreases 32 - i,
    {
        out[i] = v[from + i];
        i = i + 1;
    }
    assert(out@ =~= v@.subrange(from as int, from + 32));
    out
}

/// These bytes and, behind them, those.
pub(crate) fn extend_bytes(out: &mut Vec<u8>, more: &[u8])
    ensures
        final(out)@ == old(out)@ + more@,
{
    let mut tail = vstd::slice::slice_to_vec(more);
    out.append(&mut tail);
    assert(out@ =~= old(out)@ + more@);
}

/// True when the two hold the same bytes.
pub(crate) fn same_bytes(a: &[u8], b: &[u8]) -> (r: bool)
    ensures
        r == (a@ == b@),
{
    if a.len() != b.len() {
        return false;
    }
    let mut i: usize = 0;
    while i < a.len()
        invariant
            i <= a@.len() == b@.len(),
            forall|j: int| 0 <= j < i ==> a@[j] == b@[j],
        decreases a@.len() - i,
    {
        if a[i] != b[i] {
            assert(a@[i as int] != b@[i as int]);
            return false;
        }
        i = i + 1;
    }
    assert(a@ =~= b@);
    true
}

/// The public half of an [`Identity`].
#[derive(Debug, Clone, Copy, PartialEq, Eq)]
pub struct IdentityPublic {
    /// The X25519 identity agreement key.
    pub agreement: [u8; 32],
    /// The Ed25519 signing key. Every signature verifies against this key, and [`Fingerprint`] is
    /// derived from it, never from `agreement`.
    pub signing: [u8; 32],
}

/// What an [`IdentityPublic`] says.
#[verifier::ext_equal]
pub struct IdentityPublicView {
    pub agreement: Seq<u8>,
    pub signing: Seq<u8>,
}

impl View for IdentityPublic {
    type V = IdentityPublicView;

    open spec fn view(&self) -> IdentityPublicView {
        IdentityPublicView { agreement: self.agreement@, signing: self.signing@ }
    }
}

/// A long-term identity: an X25519 agreement key and an Ed25519 signing key, generated once and
/// kept for the lifetime of an account.
pub struct Identity {
    agreement: Secret,
    signing: Secret,
    public: IdentityPublic,
}

/// What an [`Identity`] holds.
#[verifier::ext_equal]
pub struct IdentityView {
    pub agreement: Seq<u8>,
    pub signing: Seq<u8>,
    pub public: IdentityPublicView,
}

impl View for Identity {
    type V = IdentityView;

    closed spec fn view(&self) -> IdentityView {
        IdentityView {
            agreement: secret_bytes(self.agreement),
            signing: secret_bytes(self.signing),
            public: self.public@,
        }
    }
}

impl IdentityView {
    /// The identity with these secrets.
    pub open spec fn of(agreement: Seq<u8>, signing: Seq<u8>) -> IdentityView {
        IdentityView {
            agreement,
            signing,
            public: IdentityPublicView {
                agreement: x25519_public_of(agreement),
                signing: ed25519_public_of(signing),
            },
        }
    }

    /// True when the public half belongs to the secrets.
    pub open spec fn consistent(self) -> bool {
        &&& self.agreement.len() == 32
        &&& self.signing.len() == 32
        &&& self == IdentityView::of(self.agreement, self.signing)
    }
}

impl Identity {
    #[verifier::type_invariant]
    closed spec fn well_formed(&self) -> bool {
        self@.consistent()
    }

    /// Generate a fresh identity from caller-supplied randomness: its secrets are what the source
    /// fills in, asked once for each.
    pub fn generate<R: RandomSource>(rng: &mut R) -> (r: Self)
        ensures
            exists|s1: &mut R, d1: &mut [u8], s2: &mut R, d2: &mut [u8]|
                {
                    &&& #[trigger] call_ensures(R::fill_bytes, (s1, d1), ())
                    &&& #[trigger] call_ensures(R::fill_bytes, (s2, d2), ())
                    &&& *s1 == *old(rng)
                    &&& *s2 == *final(s1)
                    &&& *final(s2) == *final(rng)
                    &&& d1@ == zeros32()
                    &&& d2@ == zeros32()
                    &&& final(d1)@.len() == 32
                    &&& final(d2)@.len() == 32
                    &&& r@ == IdentityView::of(final(d1)@, final(d2)@)
                },
    {
        let agreement = random_array(rng);
        let signing = random_array(rng);
        Self::from_secrets(&agreement, &signing)
    }

    /// The identity with these secrets.
    pub fn from_secrets(agreement: &[u8; 32], signing: &[u8; 32]) -> (r: Self)
        ensures
            r@ == IdentityView::of(agreement@, signing@),
    {
        Identity {
            agreement: seal_secret(agreement),
            signing: seal_secret(signing),
            public: IdentityPublic {
                agreement: x25519_public(agreement),
                signing: ed25519_public(signing),
            },
        }
    }

    /// The public half of this identity, safe to publish.
    pub fn public(&self) -> (r: IdentityPublic)
        ensures
            r@ == self@.public,
    {
        self.public
    }

    /// This identity's own fingerprint, derived from its signing key.
    pub fn fingerprint(&self) -> (r: Fingerprint)
        ensures
            r@ == fingerprint_of(self@.public.signing),
    {
        Fingerprint::of_signing_key(&self.public.signing)
    }

    pub(crate) fn agreement_secret(&self) -> (r: &[u8; 32])
        ensures
            r@ == self@.agreement,
            self@.consistent(),
    {
        proof {
            use_type_invariant(self);
        }
        open_secret(&self.agreement)
    }

    pub(crate) fn sign(&self, message: &[u8]) -> (r: Vec<u8>)
        ensures
            r@ == ed25519_signature(self@.signing, message@),
            r@.take(32) != neutral_point() ==> ed25519_verifies(
                self@.public.signing,
                message@,
                r@,
            ),
    {
        proof {
            use_type_invariant(self);
        }
        ed25519_sign(open_secret(&self.signing), message)
    }
}

/// A peer's identity fingerprint: the first 16 bytes of the digest of the signing key.
///
/// Derived from the signing key, never the agreement key, so that the key whose signature is
/// verified on every handshake is provably the key that a safety number displays.
#[derive(Debug, Clone, Copy, PartialEq, Eq, PartialOrd, Ord, Hash)]
pub struct Fingerprint {
    bytes: [u8; 16],
}

impl View for Fingerprint {
    type V = Seq<u8>;

    closed spec fn view(&self) -> Seq<u8> {
        self.bytes@
    }
}

impl DeepView for Fingerprint {
    type V = Seq<u8>;

    open spec fn deep_view(&self) -> Seq<u8> {
        self@
    }
}

/// The fingerprint of a signing key.
pub open spec fn fingerprint_of(signing: Seq<u8>) -> Seq<u8> {
    sha256_of(signing).take(16)
}

/// The hexadecimal digit for a value below sixteen.
pub open spec fn hex_digit(d: int) -> char {
    if d < 10 {
        (('0' as u32) + d) as char
    } else {
        (('A' as u32) + d - 10) as char
    }
}

/// Bytes as pairs of hexadecimal digits, with a space before every second pair but the first.
pub open spec fn grouped(bytes: Seq<u8>) -> Seq<char>
    decreases bytes.len(),
{
    if bytes.len() == 0 {
        Seq::empty()
    } else {
        let i = bytes.len() - 1;
        let gap = if i > 0 && i % 2 == 0 {
            seq![' ']
        } else {
            Seq::empty()
        };
        grouped(bytes.drop_last()) + gap + seq![
            hex_digit(bytes.last() as int / 16),
            hex_digit(bytes.last() as int % 16),
        ]
    }
}

fn hex(d: u8) -> (r: char)
    requires
        d < 16,
    ensures
        r == hex_digit(d as int),
{
    if d < 10 {
        (48u8 + d) as char
    } else {
        (55u8 + d) as char
    }
}

impl Fingerprint {
    /// Derive a fingerprint from an Ed25519 signing public key.
    pub fn of_signing_key(signing_public: &[u8; 32]) -> (r: Self)
        ensures
            r@ == fingerprint_of(signing_public@),
    {
        let digest = sha256(signing_public);
        Self::of_digest(&digest)
    }

    /// The fingerprint that the digest of a signing key gives.
    pub fn of_digest(digest: &Vec<u8>) -> (r: Self)
        requires
            digest@.len() >= 16,
        ensures
            r@ == digest@.take(16),
    {
        let mut bytes: [u8; 16] = [0u8; 16];
        let mut i: usize = 0;
        while i < 16
            invariant
                i <= 16 <= digest@.len(),
                forall|j: int| 0 <= j < i ==> bytes@[j] == digest@[j],
            decreases 16 - i,
        {
            bytes[i] = digest[i];
            i = i + 1;
        }
        assert(bytes@ =~= digest@.take(16));
        Fingerprint { bytes }
    }

    /// Render as 8 groups of 4 uppercase hex characters separated by spaces: the safety number that
    /// two people compare out of band to confirm that they share the same peer.
    pub fn safety_number(&self) -> (r: String)
        ensures
            r@ == grouped(self@),
            self@.len() == 16,
    {
        let mut out = String::new();
        let mut i: usize = 0;
        assert(self.bytes@.take(0) =~= Seq::empty());
        while i < 16
            invariant
                i <= 16,
                out@ == grouped(self.bytes@.take(i as int)),
            decreases 16 - i,
        {
            assert(self.bytes@.take(i + 1).drop_last() =~= self.bytes@.take(i as int));
            let ghost had = out@;
            let byte: u8 = self.bytes[i];
            if i > 0 && i % 2 == 0 {
                out.push(' ');
            }
            out.push(hex(byte / 16));
            out.push(hex(byte % 16));
            assert(out@ =~= grouped(self.bytes@.take(i + 1)));
            i = i + 1;
        }
        assert(self.bytes@.take(16) =~= self.bytes@);
        out
    }

    pub(crate) fn is(&self, other: &Fingerprint) -> (r: bool)
        ensures
            r == (self@ == other@),
    {
        same_bytes(&self.bytes, &other.bytes)
    }
}

/// The result of observing a peer's fingerprint against what was pinned for them.
#[derive(Debug, Clone, Copy, PartialEq, Eq)]
pub enum PinOutcome {
    /// No fingerprint was pinned yet; this one now is.
    New,
    /// The observed fingerprint is the pinned one.
    Same,
    /// The observed fingerprint is not the pinned one. The pin is left as it was; only
    /// [`PeerTrust::repin`] moves it.
    Changed {
        /// The fingerprint that stays pinned until the caller explicitly repins.
        previous: Fingerprint,
    },
}

/// Trust-on-first-use bookkeeping for one peer.
///
/// Pins a fingerprint the first time that a peer is seen and never moves the pin silently: a later
/// mismatch is reported, not applied, and only [`PeerTrust::repin`] accepts a new key.
#[derive(Debug, Clone)]
pub struct PeerTrust {
    pinned: Option<Fingerprint>,
    verified: bool,
}

/// What a [`PeerTrust`] holds.
#[verifier::ext_equal]
pub struct TrustView {
    pub pinned: Option<Seq<u8>>,
    pub verified: bool,
}

impl View for PeerTrust {
    type V = TrustView;

    closed spec fn view(&self) -> TrustView {
        TrustView { pinned: self.pinned.deep_view(), verified: self.verified }
    }
}

impl TrustView {
    /// After a fingerprint was seen: the first is pinned.
    pub open spec fn seeing(self, fingerprint: Seq<u8>) -> TrustView {
        match self.pinned {
            None => TrustView { pinned: Some(fingerprint), ..self },
            Some(_) => self,
        }
    }

    /// True when a fingerprint is not the one that is pinned.
    pub open spec fn refuses(self, fingerprint: Seq<u8>) -> bool {
        self.pinned is Some && self.pinned->0 != fingerprint
    }
}

impl PeerTrust {
    /// A trust record for a peer that has never been seen.
    pub fn new() -> (r: Self)
        ensures
            r@ == (TrustView { pinned: None, verified: false }),
    {
        PeerTrust { pinned: None, verified: false }
    }

    /// Compare `fingerprint` against the pin, recording it on first contact.
    pub fn observe(&mut self, fingerprint: Fingerprint) -> (r: PinOutcome)
        ensures
            final(self)@ == old(self)@.seeing(fingerprint@),
            match r {
                PinOutcome::New => old(self)@.pinned is None,
                PinOutcome::Same => old(self)@.pinned == Some(fingerprint@),
                PinOutcome::Changed { previous } => old(self)@.refuses(fingerprint@)
                    && old(self)@.pinned == Some(previous@),
            },
    {
        match self.pinned {
            None => {
                self.pinned = Some(fingerprint);
                PinOutcome::New
            },
            Some(previous) => if previous.is(&fingerprint) {
                PinOutcome::Same
            } else {
                PinOutcome::Changed { previous }
            },
        }
    }

    /// Explicitly accept `fingerprint` as the pin, after the caller has decided that a key change
    /// is legitimate. Clears verification, since that was asserted for the old key.
    pub fn repin(&mut self, fingerprint: Fingerprint)
        ensures
            final(self)@ == (TrustView { pinned: Some(fingerprint@), verified: false }),
    {
        self.pinned = Some(fingerprint);
        self.verified = false;
    }

    /// The currently pinned fingerprint, if any.
    pub fn pinned(&self) -> (r: Option<Fingerprint>)
        ensures
            r.deep_view() == self@.pinned,
    {
        self.pinned
    }

    /// Whether the pinned fingerprint has been confirmed out of band.
    pub fn is_verified(&self) -> (r: bool)
        ensures
            r == self@.verified,
    {
        self.verified
    }

    /// Record that the pinned fingerprint has (or has not) been confirmed out of band.
    pub fn set_verified(&mut self, verified: bool)
        ensures
            final(self)@ == (TrustView { verified, ..old(self)@ }),
    {
        self.verified = verified;
    }
}

impl Default for PeerTrust {
    fn default() -> (r: Self)
        ensures
            r@ == (TrustView { pinned: None, verified: false }),
    {
        Self::new()
    }
}

/// True when the first bytes come before the second, byte by byte.
pub open spec fn bytes_precede(a: Seq<u8>, b: Seq<u8>, i: nat) -> bool
    decreases a.len() - i,
{
    if i >= a.len() || i >= b.len() {
        i < b.len()
    } else if a[i as int] != b[i as int] {
        a[i as int] < b[i as int]
    } else {
        bytes_precede(a, b, i + 1)
    }
}

/// True when the side with this fingerprint keeps its offer.
pub open spec fn keeps_offer(own: Seq<u8>, peer: Option<Seq<u8>>) -> bool {
    match peer {
        Some(peer) => bytes_precede(own, peer, 0),
        None => false,
    }
}

/// Decide who keeps their offer when both sides send one at the same moment.
///
/// The side with the lower fingerprint keeps its offer and stays the initiator; the other side
/// answers. A side that cannot read the peer's fingerprint always answers, since holding in that
/// case could deadlock both sides forever.
pub fn keeps_own_offer(own: Fingerprint, peer: Option<Fingerprint>) -> (r: bool)
    ensures
        r == keeps_offer(own@, peer.deep_view()),
{
    let peer = match peer {
        Some(peer) => peer,
        None => return false,
    };
    let mut i: usize = 0;
    while i < 16 && own.bytes[i] == peer.bytes[i]
        invariant
            i <= 16,
            bytes_precede(own@, peer@, 0) == bytes_precede(own@, peer@, i as nat),
        decreases 16 - i,
    {
        i = i + 1;
    }
    i < 16 && own.bytes[i] < peer.bytes[i]
}

proof fn lemma_bytes_precede(a: Seq<u8>, b: Seq<u8>, i: nat)
    requires
        a.len() == b.len(),
        i <= a.len(),
        forall|j: int| 0 <= j < i ==> a[j] == b[j],
        a != b,
    ensures
        bytes_precede(a, b, i) != bytes_precede(b, a, i),
    decreases a.len() - i,
{
    if i == a.len() {
        assert(a =~= b);
    } else if a[i as int] == b[i as int] {
        lemma_bytes_precede(a, b, i + 1);
    }
}

/// Of two sides with different fingerprints that offer at the same moment, exactly one keeps its
/// offer, so they never both wait and never both answer.
pub proof fn law_one_offer_survives(a: Seq<u8>, b: Seq<u8>)
    requires
        a.len() == b.len(),
        a != b,
    ensures
        keeps_offer(a, Some(b)) != keeps_offer(b, Some(a)),
{
    lemma_bytes_precede(a, b, 0);
}

/// A pin never moves by itself: once a fingerprint is pinned, seeing any other leaves it.
pub proof fn law_pin_stays(trust: TrustView, fingerprint: Seq<u8>)
    requires
        trust.pinned is Some,
    ensures
        trust.seeing(fingerprint) == trust,
{
}

/// A safety number is eight groups of four digits with a space between them: for 16 bytes, 39
/// characters of which every fifth is a space.
pub proof fn law_safety_number_shape(bytes: Seq<u8>)
    requires
        bytes.len() == 16,
    ensures
        grouped(bytes).len() == 39,
        forall|i: int| 0 <= i < 39 ==> ((#[trigger] grouped(bytes)[i] == ' ') <==> i % 5 == 4),
{
    lemma_grouped(bytes);
}

proof fn lemma_grouped(bytes: Seq<u8>)
    ensures
        grouped(bytes).len() == (if bytes.len() == 0 {
            0
        } else {
            2 * bytes.len() + (bytes.len() - 1) / 2
        }),
        forall|i: int|
            0 <= i < grouped(bytes).len() ==> ((#[trigger] grouped(bytes)[i] == ' ') <==> i % 5
                == 4),
    decreases bytes.len(),
{
    if bytes.len() > 0 {
        let rest = bytes.drop_last();
        lemma_grouped(rest);
        let n = grouped(rest).len() as int;
        let last = bytes.len() - 1;
        let k = last / 2;
        let high = hex_digit(bytes.last() as int / 16);
        let low = hex_digit(bytes.last() as int % 16);
        assert(high != ' ' && low != ' ');
        let digits = seq![high, low];
        let all = grouped(bytes);
        if last > 0 && last % 2 == 0 {
            assert(last == 2 * k);
            assert(n == 5 * k - 1);
            assert(all =~= grouped(rest) + seq![' '] + digits);
            assert(all[n] == ' ' && all[n + 1] == high && all[n + 2] == low);
        } else {
            assert(last > 0 ==> last == 2 * k + 1 && n == 5 * k + 2);
            assert(all =~= grouped(rest) + digits);
            assert(all[n] == high && all[n + 1] == low);
        }
        assert forall|i: int| 0 <= i < all.len() implies ((#[trigger] all[i] == ' ') <==> i % 5
            == 4) by {
            if i < n {
                assert(all[i] == grouped(rest)[i]);
            }
        }
    }
}

} // verus!

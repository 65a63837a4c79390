//! Pairwise end-to-end encrypted conversations: the frames, the fragments of one that is too large,
//! and the state of a session.
//!
//! Turning frames into bytes on the wire is the transport's job and not done here.

use vstd::prelude::*;

use crate::crypto::{neutral_point, x25519_of, x25519_public_of, zeros32};
use crate::handshake::{
    accept_offer, accepted, complete_handshake, completed, completes, completes_with,
    completing_draws, create_offer, expected,
    BundleView, HandshakeResponse, OfferView, PendingOffer, PreKeyBundle, ResponseView,
};
use crate::identity::{
    extend_bytes, fingerprint_of, Error, ErrorView, Fingerprint, Identity, IdentityView, PeerTrust,
    PinOutcome, RandomSource, TrustView,
};
use crate::ratchet::{
    delivers, in_step, law_turn_in_step, mutual, reads, MessageView, Ratchet, RatchetMessage,
    RatchetView,
};
use crate::text::same;

verus! {

/// The protocol version that every frame carries.
pub const PROTOCOL_VERSION: u32 = 1;

/// One protocol frame.
#[derive(Debug, Clone, PartialEq, Eq)]
#[allow(inconsistent_fields)]
pub enum Frame {
    /// An offer to start an encrypted session.
    Init {
        /// The offering side's prekey bundle.
        bundle: PreKeyBundle,
        /// The sender's account, when it has one.
        account: Option<String>,
    },
    /// An answer to an offer.
    Accept {
        /// The answering side's handshake response.
        response: HandshakeResponse,
        /// The sender's account, when it has one.
        account: Option<String>,
    },
    /// A refusal of an offer.
    Reject {
        /// A human-readable reason.
        reason: Option<String>,
    },
    /// The initiator's first encrypted payload, proving that the session works.
    Ack {
        /// The encrypted empty payload.
        ct: RatchetMessage,
    },
    /// The end of a session.
    Close,
    /// An encrypted text message.
    Msg {
        /// The encrypted payload.
        ct: RatchetMessage,
    },
    /// An encrypted file descriptor.
    Media {
        /// The encrypted payload, whose plaintext is a media descriptor.
        ct: RatchetMessage,
    },
}

/// One piece of a frame that is too large for one line.
#[derive(Debug, Clone, PartialEq, Eq)]
pub struct Frag {
    /// The id that every fragment of one frame shares.
    pub id: String,
    /// This fragment's index, from zero.
    pub i: u32,
    /// How many fragments there are.
    pub n: u32,
    /// This fragment's slice of the payload.
    pub ct: Vec<u8>,
}

/// What a [`Frag`] says.
#[verifier::ext_equal]
pub struct FragView {
    pub id: Seq<char>,
    pub i: u32,
    pub n: u32,
    pub ct: Seq<u8>,
}

impl View for Frag {
    type V = FragView;

    open spec fn view(&self) -> FragView {
        FragView { id: self.id@, i: self.i, n: self.n, ct: self.ct@ }
    }
}

impl DeepView for Frag {
    type V = FragView;

    open spec fn deep_view(&self) -> FragView {
        self@
    }
}

/// True when these are all the fragments of one frame, each once.
pub open spec fn whole(fragments: Seq<FragView>) -> bool {
    &&& 0 < fragments.len() <= u32::MAX
    &&& forall|k: int|
        0 <= k < fragments.len() ==> {
            &&& (#[trigger] fragments[k]).id == fragments[0].id
            &&& fragments[k].n == fragments.len()
            &&& fragments[k].i < fragments.len()
        }
    &&& forall|j: int, k: int|
        0 <= j < k < fragments.len() ==> (#[trigger] fragments[j]).i != (#[trigger] fragments[k]).i
}

/// True when the fragment with this index stands at this place.
pub open spec fn stands_at(fragments: Seq<FragView>, i: int, k: int) -> bool {
    0 <= k < fragments.len() && fragments[k].i == i
}

/// The slices of the fragments in the order of their indices.
pub open spec fn slices(fragments: Seq<FragView>) -> Seq<Seq<u8>> {
    Seq::new(
        fragments.len(),
        |i: int| fragments[choose|k: int| stands_at(fragments, i, k)].ct,
    )
}

/// Bytes one after the other.
pub open spec fn run_together(parts: Seq<Seq<u8>>) -> Seq<u8>
    decreases parts.len(),
{
    if parts.len() == 0 {
        Seq::empty()
    } else {
        run_together(parts.drop_last()) + parts.last()
    }
}

/// The payload that fragments were cut from.
pub open spec fn reassembled(fragments: Seq<FragView>) -> Result<Seq<u8>, ErrorView> {
    if whole(fragments) {
        Ok(run_together(slices(fragments)))
    } else {
        Err(ErrorView::Fragmentation)
    }
}

/// As many different numbers below a bound as the bound says are all of them.
proof fn lemma_every_index(fragments: Seq<FragView>, i: int)
    requires
        whole(fragments),
        0 <= i < fragments.len(),
    ensures
        exists|k: int| stands_at(fragments, i, k),
{
    let indices = fragments.map_values(|f: FragView| f.i as int);
    assert(indices.no_duplicates());
    indices.unique_seq_to_set();
    let all = vstd::set_lib::set_int_range(0, fragments.len() as int);
    vstd::set_lib::lemma_int_range(0, fragments.len() as int);
    assert(indices.to_set().subset_of(all)) by {
        assert forall|x: int| indices.to_set().contains(x) implies all.contains(x) by {
            let k = indices.index_of(x);
            assert(fragments[k].i == x);
        }
    }
    vstd::set_lib::lemma_subset_equality(indices.to_set(), all);
    assert(indices.to_set().contains(i));
    let k = indices.index_of(i);
    assert(stands_at(fragments, i, k));
}

/// Reassemble a complete set of fragments into the payload that they were split from.
///
/// A set with a mismatched `id` or `n`, a duplicate or out-of-range index, or a missing piece is
/// rejected. Collecting fragments as they come, and giving up on some, needs a clock, and is the
/// transport's.
pub fn reassemble(fragments: &Vec<Frag>) -> (r: Result<Vec<u8>, Error>)
    ensures
        match (reassembled(fragments.deep_view()), r) {
            (Ok(payload), Ok(got)) => got@ == payload,
            (Err(e), Err(got)) => got@ == e,
            _ => false,
        },
{
    let ghost all = fragments.deep_view();
    if fragments.len() == 0 || fragments.len() > u32::MAX as usize {
        return Err(Error::Fragmentation);
    }
    let n: usize = fragments.len();
    let mut slots: Vec<Option<usize>> = Vec::new();
    let mut k: usize = 0;
    while k < n
        invariant
            k <= n,
            slots@.len() == k,
            forall|i: int| 0 <= i < k ==> (#[trigger] slots@[i]) is None,
        decreases n - k,
    {
        slots.push(None);
        k = k + 1;
    }
    let mut k: usize = 0;
    while k < n
        invariant
            k <= n == fragments@.len() == all.len() == slots@.len(),
            0 < n <= u32::MAX,
            all == fragments.deep_view(),
            forall|j: int|
                0 <= j < k ==> {
                    &&& (#[trigger] all[j]).id == all[0].id
                    &&& all[j].n == n
                    &&& all[j].i < n
                    &&& slots@[all[j].i as int] == Some(j as usize)
                },
            forall|i: int|
                0 <= i < n ==> ((#[trigger] slots@[i]) matches Some(j) ==> j < k && all[j as int].i
                    == i),
        decreases n - k,
    {
        assert(all[k as int] == fragments@[k as int]@);
        assert(all[0] == fragments@[0]@);
        if !same(&fragments[k].id, &fragments[0].id) || fragments[k].n as usize != n
            || fragments[k].i as usize >= n {
            assert(!whole(all));
            return Err(Error::Fragmentation);
        }
        let i: usize = fragments[k].i as usize;
        if let Some(j) = slots[i] {
            assert(all[j as int].i == all[k as int].i);
            assert(!whole(all));
            return Err(Error::Fragmentation);
        }
        let ghost before = slots@;
        slots.set(i, Some(k));
        assert forall|j: int| 0 <= j < k + 1 implies slots@[(#[trigger] all[j]).i as int] == Some(
            j as usize,
        ) by {
            if j < k {
                assert(before[all[j].i as int] == Some(j as usize));
            }
        }
        k = k + 1;
    }
    assert(whole(all)) by {
        assert forall|a: int, b: int| 0 <= a < b < all.len() implies (#[trigger] all[a]).i != (
        #[trigger] all[b]).i by {
            assert(slots@[all[a].i as int] == Some(a as usize));
            assert(slots@[all[b].i as int] == Some(b as usize));
        }
    }
    let ghost parts = slices(all);
    let mut out: Vec<u8> = Vec::new();
    let mut i: usize = 0;
    assert(parts.take(0) =~= Seq::empty());
    while i < n
        invariant
            i <= n == fragments@.len() == all.len() == slots@.len() == parts.len(),
            all == fragments.deep_view(),
            whole(all),
            parts == slices(all),
            forall|j: int|
                0 <= j < n ==> slots@[(#[trigger] all[j]).i as int] == Some(j as usize),
            out@ == run_together(parts.take(i as int)),
        decreases n - i,
    {
        proof {
            lemma_every_index(all, i as int);
            let at = choose|k: int| stands_at(all, i as int, k);
            assert(slots@[all[at].i as int] == Some(at as usize));
            assert(parts[i as int] == all[at].ct);
            assert(all[at] == fragments@[at]@);
        }
        assert(parts.take(i + 1).drop_last() =~= parts.take(i as int));
        match slots[i] {
            Some(k) => extend_bytes(&mut out, &fragments[k].ct),
            None => return Err(Error::Fragmentation),
        }
        i = i + 1;
    }
    assert(parts.take(n as int) =~= parts);
    Ok(out)
}

/// Fragments come together in whatever order they are listed: cut into these slices and listed in
/// this order, they give the slices one after the other.
pub proof fn law_fragments_in_any_order(parts: Seq<Seq<u8>>, id: Seq<char>, order: Seq<int>)
    requires
        0 < parts.len() <= u32::MAX,
        order.len() == parts.len(),
        order.no_duplicates(),
        forall|k: int| 0 <= k < order.len() ==> 0 <= #[trigger] order[k] < parts.len(),
    ensures
        reassembled(
            Seq::new(
                order.len(),
                |k: int|
                    (FragView {
                        id,
                        i: order[k] as u32,
                        n: parts.len() as u32,
                        ct: parts[order[k]],
                    }),
            ),
        ) == Ok::<Seq<u8>, ErrorView>(run_together(parts)),
{
    let fragments = Seq::new(
        order.len(),
        |k: int|
            (FragView { id, i: order[k] as u32, n: parts.len() as u32, ct: parts[order[k]] }),
    );
    assert(whole(fragments)) by {
        assert forall|j: int, k: int| 0 <= j < k < fragments.len() implies (
        #[trigger] fragments[j]).i != (#[trigger] fragments[k]).i by {
            assert(order[j] != order[k]);
        }
    }
    assert forall|i: int| 0 <= i < parts.len() implies slices(fragments)[i] == parts[i] by {
        lemma_every_index(fragments, i);
        let k = choose|k: int| stands_at(fragments, i, k);
        assert(fragments[k].i == i);
        assert(order[k] == i);
    }
    assert(slices(fragments) =~= parts);
}

/// Which side of the handshake a session played.
#[derive(Debug, Clone, Copy, PartialEq, Eq, Structural)]
pub enum Role {
    /// This side made the offer.
    Initiator,
    /// This side answered it.
    Responder,
}

/// How far a conversation has got towards being encrypted.
///
/// Only [`SessionState::Established`] carries a ratchet that decrypts content, which is what makes
/// "an answer does not mean established" a property of the type.
#[allow(inconsistent_fields)]
pub enum SessionState {
    /// Nothing has been offered yet.
    Idle,
    /// We made an offer and are waiting for an answer.
    Offered {
        /// The keys that we offered, kept until the answer comes.
        pending: PendingOffer,
    },
    /// They made an offer and we have not answered yet.
    OfferReceived {
        /// What they offered.
        bundle: PreKeyBundle,
    },
    /// We answered and are waiting for the acknowledgement that proves that they can decrypt.
    ///
    /// An answer can be lost, so showing a lock here would tell the user something untrue.
    AwaitingAck {
        /// The ratchet, held but not yet trusted to carry content.
        ratchet: Ratchet,
    },
    /// The session works in both directions.
    Established {
        /// The live ratchet.
        ratchet: Ratchet,
    },
    /// They refused.
    Rejected,
    /// The session ended.
    Closed,
}

/// What a [`SessionState`] holds.
#[allow(inconsistent_fields)]
pub enum StateView {
    Idle,
    Offered { pending: OfferView },
    OfferReceived { bundle: BundleView },
    AwaitingAck { ratchet: RatchetView },
    Established { ratchet: RatchetView },
    Rejected,
    Closed,
}

impl View for SessionState {
    type V = StateView;

    open spec fn view(&self) -> StateView {
        match self {
            SessionState::Idle => StateView::Idle,
            SessionState::Offered { pending } => StateView::Offered { pending: pending@ },
            SessionState::OfferReceived { bundle } => StateView::OfferReceived { bundle: bundle@ },
            SessionState::AwaitingAck { ratchet } => StateView::AwaitingAck { ratchet: ratchet@ },
            SessionState::Established { ratchet } => StateView::Established { ratchet: ratchet@ },
            SessionState::Rejected => StateView::Rejected,
            SessionState::Closed => StateView::Closed,
        }
    }
}

/// One pairwise encrypted conversation.
///
/// An answer alone never establishes it: the responder lands in [`SessionState::AwaitingAck`], from
/// which nothing decrypts content, and only [`Session::receive_ack`] moves it onward.
pub struct Session {
    state: SessionState,
    trust: PeerTrust,
    role: Option<Role>,
}

/// What a [`Session`] holds.
#[verifier::ext_equal]
pub struct SessionView {
    pub state: StateView,
    pub trust: TrustView,
    pub role: Option<Role>,
}

impl View for Session {
    type V = SessionView;

    closed spec fn view(&self) -> SessionView {
        SessionView { state: self.state@, trust: self.trust@, role: self.role }
    }
}

impl SessionView {
    /// Before anything was negotiated.
    pub open spec fn idle() -> SessionView {
        SessionView {
            state: StateView::Idle,
            trust: TrustView { pinned: None, verified: false },
            role: None,
        }
    }

    /// Why an offer that we recorded is not answered, where it is not.
    pub open spec fn accepting(self, identity: IdentityView, ek: Seq<u8>) -> Result<
        ResponseView,
        ErrorView,
    > {
        match self.state {
            StateView::OfferReceived { bundle } => match accepted(identity, bundle, ek) {
                Err(e) => Err(e),
                Ok((response, _)) => if self.trust.refuses(fingerprint_of(bundle.sik)) {
                    Err(
                        ErrorView::FingerprintChanged {
                            previous: self.trust.pinned->0,
                            current: fingerprint_of(bundle.sik),
                        },
                    )
                } else {
                    Ok(response)
                },
            },
            _ => Err(ErrorView::WrongState),
        }
    }

    /// True when answering the offer that we recorded calls for an ephemeral key.
    pub open spec fn accepting_draws(self) -> bool {
        match self.state {
            StateView::OfferReceived { bundle } => bundle.signed(),
            _ => false,
        }
    }

    /// After an offer was answered. An answer that fails changes nothing.
    pub open spec fn after_accept(self, identity: IdentityView, ek: Seq<u8>) -> SessionView {
        match (self.accepting(identity, ek), self.state) {
            (Ok(_), StateView::OfferReceived { bundle }) => SessionView {
                state: StateView::AwaitingAck { ratchet: accepted(identity, bundle, ek)->Ok_0.1 },
                trust: self.trust.seeing(fingerprint_of(bundle.sik)),
                role: Some(Role::Responder),
            },
            _ => self,
        }
    }

    /// Why an answer to our offer is not taken, where it is not.
    pub open spec fn completing(
        self,
        identity: IdentityView,
        response: ResponseView,
        fresh: Seq<u8>,
    ) -> Result<(), ErrorView> {
        match self.state {
            StateView::Offered { pending } => match completed(identity, pending, response, fresh) {
                Err(e) => Err(e),
                Ok(_) => if self.trust.refuses(fingerprint_of(response.sik)) {
                    Err(
                        ErrorView::FingerprintChanged {
                            previous: self.trust.pinned->0,
                            current: fingerprint_of(response.sik),
                        },
                    )
                } else {
                    Ok(())
                },
            },
            _ => Err(ErrorView::WrongState),
        }
    }

    /// True when taking an answer to our offer calls for a fresh ratchet key.
    pub open spec fn completing_draws(
        self,
        identity: IdentityView,
        response: ResponseView,
    ) -> bool {
        match self.state {
            StateView::Offered { pending } => completing_draws(identity, pending, response),
            _ => false,
        }
    }

    /// After an answer to our offer came. One that fails changes nothing.
    pub open spec fn after_complete(
        self,
        identity: IdentityView,
        response: ResponseView,
        fresh: Seq<u8>,
    ) -> SessionView {
        match (self.completing(identity, response, fresh), self.state) {
            (Ok(_), StateView::Offered { pending }) => SessionView {
                state: StateView::Established {
                    ratchet: completed(identity, pending, response, fresh)->Ok_0,
                },
                trust: self.trust.seeing(fingerprint_of(response.sik)),
                role: Some(Role::Initiator),
            },
            _ => self,
        }
    }

    /// What the acknowledgement of our answer proves.
    pub open spec fn acknowledging(self, msg: MessageView, fresh: Seq<u8>) -> Result<(), ErrorView> {
        match self.state {
            StateView::AwaitingAck { ratchet } => match ratchet.decrypted(msg, fresh) {
                Err(e) => Err(e),
                Ok(_) => Ok(()),
            },
            _ => Err(ErrorView::WrongState),
        }
    }

    /// After the acknowledgement of our answer came. One that fails leaves the session where it
    /// was.
    pub open spec fn after_ack(self, msg: MessageView, fresh: Seq<u8>) -> SessionView {
        match (self.acknowledging(msg, fresh), self.state) {
            (Ok(_), StateView::AwaitingAck { ratchet }) => SessionView {
                state: StateView::Established { ratchet: ratchet.after_decrypt(msg, fresh) },
                ..self
            },
            _ => self,
        }
    }

    /// True when an acknowledgement of our answer calls for a fresh ratchet key.
    pub open spec fn acknowledging_draws(self, msg: MessageView) -> bool {
        match self.state {
            StateView::AwaitingAck { ratchet } => ratchet.needs_fresh(msg),
            _ => false,
        }
    }

    /// The message that carries a payload.
    pub open spec fn sending(self, plain: Seq<u8>) -> Result<MessageView, ErrorView> {
        match self.state {
            StateView::Established { ratchet } => ratchet.encrypted(plain),
            _ => Err(ErrorView::WrongState),
        }
    }

    /// After a payload was sent.
    pub open spec fn after_send(self) -> SessionView {
        match self.state {
            StateView::Established { ratchet } => SessionView {
                state: StateView::Established { ratchet: ratchet.after_encrypt() },
                ..self
            },
            _ => self,
        }
    }

    /// The payload that a message carries.
    pub open spec fn receiving(self, msg: MessageView, fresh: Seq<u8>) -> Result<
        Seq<u8>,
        ErrorView,
    > {
        match self.state {
            StateView::Established { ratchet } => ratchet.decrypted(msg, fresh),
            _ => Err(ErrorView::WrongState),
        }
    }

    /// True when a message calls for a fresh ratchet key.
    pub open spec fn receiving_draws(self, msg: MessageView) -> bool {
        match self.state {
            StateView::Established { ratchet } => ratchet.needs_fresh(msg),
            _ => false,
        }
    }

    /// After a message came.
    pub open spec fn after_receive(self, msg: MessageView, fresh: Seq<u8>) -> SessionView {
        match self.state {
            StateView::Established { ratchet } => SessionView {
                state: StateView::Established { ratchet: ratchet.after_decrypt(msg, fresh) },
                ..self
            },
            _ => self,
        }
    }
}

/// True when answering the offer that a session recorded takes the one session to the other and
/// gives `r`, with this ephemeral key. Whoever made the offer completes the handshake on the answer,
/// which is signed by the key that it names, unless its signature begins with the neutral point.
pub open spec fn accepts(
    before: SessionView,
    after: SessionView,
    identity: IdentityView,
    ek: Seq<u8>,
    r: Result<HandshakeResponse, Error>,
) -> bool {
    &&& after == before.after_accept(identity, ek)
    &&& match (before.accepting(identity, ek), r) {
        (Ok(response), Ok(got)) => {
            &&& got@ == response
            &&& got@.sig.take(32) != neutral_point() ==> got@.signed()
            &&& completes(before.state->bundle, got@, after.state->AwaitingAck_ratchet)
        },
        (Err(e), Err(got)) => got@ == e,
        _ => false,
    }
}

/// True when taking an answer takes the one session to the other and gives `r`, with `fresh` as our
/// next ratchet key. Whoever gave the answer expects what we send next.
pub open spec fn takes_answer(
    before: SessionView,
    after: SessionView,
    identity: IdentityView,
    response: ResponseView,
    fresh: Seq<u8>,
    r: Result<(), Error>,
) -> bool {
    &&& after == before.after_complete(identity, response, fresh)
    &&& match (before.completing(identity, response, fresh), r) {
        (Ok(_), Ok(_)) => expected(
            identity,
            before.state->pending,
            response,
            after.state->Established_ratchet,
        ),
        (Err(e), Err(got)) => got@ == e,
        _ => false,
    }
}

/// True when an acknowledgement takes the one session to the other and gives `r`, with `fresh` as
/// our next ratchet key.
pub open spec fn takes_ack(
    before: SessionView,
    after: SessionView,
    msg: MessageView,
    fresh: Seq<u8>,
    r: Result<(), Error>,
) -> bool {
    &&& after == before.after_ack(msg, fresh)
    &&& match (before.acknowledging(msg, fresh), r) {
        (Ok(_), Ok(_)) => before.state->AwaitingAck_ratchet.turns_on(msg) ==> mutual(fresh, msg.dh),
        (Err(e), Err(got)) => got@ == e,
        _ => false,
    }
}

/// True when a message takes the one session to the other and gives `r`, with `fresh` as our next
/// ratchet key.
pub open spec fn receives(
    before: SessionView,
    after: SessionView,
    msg: MessageView,
    fresh: Seq<u8>,
    r: Result<Vec<u8>, Error>,
) -> bool {
    &&& after == before.after_receive(msg, fresh)
    &&& match (before.receiving(msg, fresh), r) {
        (Ok(plain), Ok(got)) => got@ == plain,
        (Err(e), Err(got)) => got@ == e,
        _ => false,
    }
}

impl Session {
    /// A session that has not started negotiating with anyone.
    pub fn new() -> (r: Self)
        ensures
            r@ == SessionView::idle(),
    {
        Session { state: SessionState::Idle, trust: PeerTrust::new(), role: None }
    }

    /// Start as the initiator: publish a fresh prekey bundle. The prekeys are what the source fills
    /// in, asked once for each.
    ///
    /// It is signed by the key that it names, unless its signature begins with the neutral point.
    pub fn start<R: RandomSource>(&mut self, identity: &Identity, rng: &mut R) -> (r: Result<
        PreKeyBundle,
        Error,
    >)
        ensures
            r is Ok,
            exists|s1: &mut R, d1: &mut [u8], s2: &mut R, d2: &mut [u8]|
                {
                    let pending = OfferView::of(identity@, final(d1)@, final(d2)@);
                    &&& #[trigger] call_ensures(R::fill_bytes, (s1, d1), ())
                    &&& #[trigger] call_ensures(R::fill_bytes, (s2, d2), ())
                    &&& *s1 == *old(rng)
                    &&& *s2 == *final(s1)
                    &&& *final(s2) == *final(rng)
                    &&& d1@ == zeros32()
                    &&& d2@ == zeros32()
                    &&& final(d1)@.len() == 32
                    &&& final(d2)@.len() == 32
                    &&& r->Ok_0@ == pending.bundle
                    &&& final(self)@ == (SessionView {
                        state: StateView::Offered { pending },
                        ..old(self)@
                    })
                },
            r->Ok_0@.sig.take(32) != neutral_point() ==> r->Ok_0@.signed(),
    {
        match create_offer(identity, rng) {
            Ok(pending) => {
                let bundle = pending.bundle().copy();
                self.state = SessionState::Offered { pending };
                Ok(bundle)
            },
            Err(e) => Err(e),
        }
    }

    /// Record an offer, returning its (not yet verified or pinned) fingerprint for a prompt.
    ///
    /// When this side already has its own offer outstanding, the caller must first decide who keeps
    /// theirs: a side that keeps its own must not overwrite it by recording the peer's.
    pub fn receive_offer(&mut self, bundle: PreKeyBundle) -> (r: Fingerprint)
        ensures
            r@ == fingerprint_of(bundle@.sik),
            final(self)@ == (SessionView {
                state: StateView::OfferReceived { bundle: bundle@ },
                ..old(self)@
            }),
    {
        let offered = Fingerprint::of_signing_key(&bundle.sik);
        self.state = SessionState::OfferReceived { bundle };
        offered
    }

    /// Accept a recorded offer: verify it, derive the session secret, and answer. Lands in
    /// [`SessionState::AwaitingAck`], not established.
    ///
    /// The ephemeral key is what the source fills in, asked once. Where there is no signed offer the
    /// source is not asked. Whoever made the offer completes the handshake on the answer.
    pub fn accept<R: RandomSource>(&mut self, identity: &Identity, rng: &mut R) -> (r: Result<
        HandshakeResponse,
        Error,
    >)
        ensures
            old(self)@.accepting_draws() ==> exists|source: &mut R, dest: &mut [u8]|
                {
                    &&& #[trigger] call_ensures(R::fill_bytes, (source, dest), ())
                    &&& *source == *old(rng)
                    &&& *final(source) == *final(rng)
                    &&& dest@ == zeros32()
                    &&& final(dest)@.len() == 32
                    &&& accepts(old(self)@, final(self)@, identity@, final(dest)@, r)
                },
            !old(self)@.accepting_draws() ==> *final(rng) == *old(rng) && (forall|fresh: Seq<u8>|
                fresh.len() == 32 ==> #[trigger] accepts(old(self)@, final(self)@, identity@, fresh, r)),
    {
        let bundle = match &self.state {
            SessionState::OfferReceived { bundle } => bundle,
            _ => return Err(Error::WrongState),
        };
        let (response, ratchet) = match accept_offer(identity, bundle, rng) {
            Ok(answer) => answer,
            Err(e) => return Err(e),
        };
        let fingerprint = Fingerprint::of_signing_key(&bundle.sik);
        if let PinOutcome::Changed { previous } = self.trust.observe(fingerprint) {
            return Err(Error::FingerprintChanged { previous, current: fingerprint });
        }
        self.role = Some(Role::Responder);
        self.state = SessionState::AwaitingAck { ratchet };
        Ok(response)
    }

    /// Reject a recorded offer.
    pub fn reject(&mut self, reason: Option<String>) -> (r: Frame)
        ensures
            r == (Frame::Reject { reason }),
            final(self)@ == (SessionView { state: StateView::Rejected, ..old(self)@ }),
    {
        self.state = SessionState::Rejected;
        Frame::Reject { reason }
    }

    /// Record that an offer of ours was rejected.
    pub fn receive_reject(&mut self)
        ensures
            final(self)@ == (SessionView { state: StateView::Rejected, ..old(self)@ }),
    {
        self.state = SessionState::Rejected;
    }

    /// Complete the handshake as the initiator: verify the responder's signature before pinning its
    /// fingerprint, derive the session secret, and decrypt the first message. Establishes the
    /// session at once, since the initiator has no further frame to wait for. Whoever gave the answer
    /// expects what we send next.
    ///
    /// Our next ratchet key is what the source fills in, asked once. Where no such key is called for
    /// the source is not asked, and the outcome is the same for every key.
    pub fn receive_accept<R: RandomSource>(
        &mut self,
        identity: &Identity,
        response: &HandshakeResponse,
        rng: &mut R,
    ) -> (r: Result<(), Error>)
        ensures
            old(self)@.completing_draws(identity@, response@) ==> exists|
                source: &mut R,
                dest: &mut [u8],
            |
                {
                    &&& #[trigger] call_ensures(R::fill_bytes, (source, dest), ())
                    &&& *source == *old(rng)
                    &&& *final(source) == *final(rng)
                    &&& dest@ == zeros32()
                    &&& final(dest)@.len() == 32
                    &&& takes_answer(
                        old(self)@,
                        final(self)@,
                        identity@,
                        response@,
                        final(dest)@,
                        r,
                    )
                },
            !old(self)@.completing_draws(identity@, response@) ==> *final(rng) == *old(rng) && (forall|
                fresh: Seq<u8>,
            |
                fresh.len() == 32 ==> #[trigger] takes_answer(
                    old(self)@,
                    final(self)@,
                    identity@,
                    response@,
                    fresh,
                    r,
                )),
    {
        let pending = match &self.state {
            SessionState::Offered { pending } => pending,
            _ => return Err(Error::WrongState),
        };
        let ghost view = pending@;
        let r = complete_handshake(identity, pending, response, rng);
        assert(forall|fresh: Seq<u8>|
            completes_with(identity@, view, response@, fresh, r) ==> #[trigger] completed(
                identity@,
                view,
                response@,
                fresh,
            ) is Ok == r is Ok);
        let ratchet = match r {
            Ok(ratchet) => ratchet,
            Err(e) => return Err(e),
        };
        let fingerprint = Fingerprint::of_signing_key(&response.sik);
        if let PinOutcome::Changed { previous } = self.trust.observe(fingerprint) {
            return Err(Error::FingerprintChanged { previous, current: fingerprint });
        }
        self.role = Some(Role::Initiator);
        self.state = SessionState::Established { ratchet };
        Ok(())
    }

    /// Produce the initiator's acknowledgement: a message of an empty plaintext that proves that
    /// the session works.
    pub fn make_ack(&mut self) -> (r: Result<RatchetMessage, Error>)
        ensures
            final(self)@ == old(self)@.after_send(),
            match (old(self)@.sending(Seq::empty()), r) {
                (Ok(msg), Ok(got)) => {
                    &&& got@ == msg
                    &&& delivers(old(self)@.state->Established_ratchet, got@, Seq::empty())
                },
                (Err(e), Err(got)) => got@ == e,
                _ => false,
            },
    {
        let nothing: [u8; 0] = [];
        assert(nothing@ =~= Seq::<u8>::empty());
        self.send(&nothing)
    }

    /// Decrypt the initiator's acknowledgement. Only this moves a responder from
    /// [`SessionState::AwaitingAck`] to [`SessionState::Established`]; one that is lost or does not
    /// open leaves the session exactly where it was.
    ///
    /// Our next ratchet key is what the source fills in, asked once. Where no such key is called for
    /// the source is not asked, and the outcome is the same for every key.
    pub fn receive_ack<R: RandomSource>(&mut self, ct: &RatchetMessage, rng: &mut R) -> (r: Result<
        (),
        Error,
    >)
        ensures
            old(self)@.acknowledging_draws(ct@) ==> exists|source: &mut R, dest: &mut [u8]|
                {
                    &&& #[trigger] call_ensures(R::fill_bytes, (source, dest), ())
                    &&& *source == *old(rng)
                    &&& *final(source) == *final(rng)
                    &&& dest@ == zeros32()
                    &&& final(dest)@.len() == 32
                    &&& takes_ack(old(self)@, final(self)@, ct@, final(dest)@, r)
                },
            !old(self)@.acknowledging_draws(ct@) ==> *final(rng) == *old(rng) && (forall|fresh: Seq<u8>|
                fresh.len() == 32 ==> #[trigger] takes_ack(old(self)@, final(self)@, ct@, fresh, r)),
    {
        let ghost before = self@;
        let mut held = SessionState::Idle;
        core::mem::swap(&mut held, &mut self.state);
        match held {
            SessionState::AwaitingAck { ratchet } => {
                let mut ratchet = ratchet;
                let ghost was = ratchet@;
                let r = ratchet.decrypt(ct, rng);
                let ghost now = ratchet@;
                let done: Result<(), Error> = match r {
                    Ok(_) => {
                        self.state = SessionState::Established { ratchet };
                        Ok(())
                    },
                    Err(e) => {
                        self.state = SessionState::AwaitingAck { ratchet };
                        Err(e)
                    },
                };
                assert forall|fresh: Seq<u8>| reads(was, now, ct@, fresh, r) implies #[trigger]
                    takes_ack(before, self@, ct@, fresh, done) by {
                    assert(self@ =~= before.after_ack(ct@, fresh));
                }
                done
            },
            other => {
                self.state = other;
                Err(Error::WrongState)
            },
        }
    }

    /// Encrypt a payload. Only available once established. Whoever expects the message reads the
    /// payload.
    pub fn send(&mut self, plaintext: &[u8]) -> (r: Result<RatchetMessage, Error>)
        ensures
            final(self)@ == old(self)@.after_send(),
            match (old(self)@.sending(plaintext@), r) {
                (Ok(msg), Ok(got)) => {
                    &&& got@ == msg
                    &&& delivers(old(self)@.state->Established_ratchet, got@, plaintext@)
                },
                (Err(e), Err(got)) => got@ == e,
                _ => false,
            },
    {
        match &mut self.state {
            SessionState::Established { ratchet } => ratchet.encrypt(plaintext),
            _ => Err(Error::WrongState),
        }
    }

    /// Decrypt a payload. Only available once established: from no other state is a receiving chain
    /// reached.
    ///
    /// Our next ratchet key is what the source fills in, asked once. Where no such key is called for
    /// the source is not asked, and the outcome is the same for every key.
    pub fn receive<R: RandomSource>(&mut self, ct: &RatchetMessage, rng: &mut R) -> (r: Result<
        Vec<u8>,
        Error,
    >)
        ensures
            old(self)@.receiving_draws(ct@) ==> exists|source: &mut R, dest: &mut [u8]|
                {
                    &&& #[trigger] call_ensures(R::fill_bytes, (source, dest), ())
                    &&& *source == *old(rng)
                    &&& *final(source) == *final(rng)
                    &&& dest@ == zeros32()
                    &&& final(dest)@.len() == 32
                    &&& receives(old(self)@, final(self)@, ct@, final(dest)@, r)
                },
            !old(self)@.receiving_draws(ct@) ==> *final(rng) == *old(rng) && (forall|fresh: Seq<u8>|
                fresh.len() == 32 ==> #[trigger] receives(old(self)@, final(self)@, ct@, fresh, r)),
    {
        match &mut self.state {
            SessionState::Established { ratchet } => {
                let ghost was = ratchet@;
                let r = ratchet.decrypt(ct, rng);
                assert(forall|fresh: Seq<u8>|
                    reads(was, ratchet@, ct@, fresh, r) ==> #[trigger] was.decrypted(ct@, fresh)
                        is Ok == r is Ok);
                r
            },
            _ => Err(Error::WrongState),
        }
    }

    /// End the session locally.
    pub fn close(&mut self) -> (r: Frame)
        ensures
            r == Frame::Close,
            final(self)@ == (SessionView { state: StateView::Closed, ..old(self)@ }),
    {
        self.state = SessionState::Closed;
        Frame::Close
    }

    /// Record that the peer ended the session.
    pub fn receive_close(&mut self)
        ensures
            final(self)@ == (SessionView { state: StateView::Closed, ..old(self)@ }),
    {
        self.state = SessionState::Closed;
    }

    /// Whether this session can currently send or receive content.
    pub fn is_established(&self) -> (r: bool)
        ensures
            r == (self@.state is Established),
    {
        match &self.state {
            SessionState::Established { .. } => true,
            _ => false,
        }
    }

    /// The peer's pinned fingerprint, once one has been observed.
    pub fn peer_fingerprint(&self) -> (r: Option<Fingerprint>)
        ensures
            r.deep_view() == self@.trust.pinned,
    {
        self.trust.pinned()
    }

    /// Whether the pinned fingerprint has been confirmed out of band.
    pub fn is_peer_verified(&self) -> (r: bool)
        ensures
            r == self@.trust.verified,
    {
        self.trust.is_verified()
    }

    /// Mark the pinned fingerprint as confirmed out of band.
    pub fn mark_peer_verified(&mut self)
        ensures
            final(self)@ == (SessionView {
                trust: TrustView { verified: true, ..old(self)@.trust },
                ..old(self)@
            }),
    {
        self.trust.set_verified(true);
    }

    /// Accept a fingerprint change that the caller has explicitly decided to trust, so that the
    /// operation that reported it can be retried.
    pub fn confirm_fingerprint_change(&mut self, fingerprint: Fingerprint)
        ensures
            final(self)@ == (SessionView {
                trust: TrustView { pinned: Some(fingerprint@), verified: false },
                ..old(self)@
            }),
    {
        self.trust.repin(fingerprint);
    }

    /// Which side of the handshake this session played, once negotiation has started.
    pub fn role(&self) -> (r: Option<Role>)
        ensures
            r == self@.role,
    {
        self.role
    }
}

impl Default for Session {
    fn default() -> (r: Self)
        ensures
            r@ == SessionView::idle(),
    {
        Self::new()
    }
}

/// An answer does not establish a session: whatever comes of it, the side that answered cannot send
/// or read content until it has decrypted the acknowledgement.
pub proof fn law_answer_does_not_establish(
    session: SessionView,
    identity: IdentityView,
    ek: Seq<u8>,
    plain: Seq<u8>,
    msg: MessageView,
    fresh: Seq<u8>,
)
    requires
        session.state is OfferReceived,
    ensures
        ({
            let after = session.after_accept(identity, ek);
            &&& after.state !is Established
            &&& after.sending(plain) == Err::<MessageView, ErrorView>(ErrorView::WrongState)
            &&& after.receiving(msg, fresh) == Err::<Seq<u8>, ErrorView>(ErrorView::WrongState)
        }),
{
}

/// Content moves in an established session only; elsewhere asking for it changes nothing.
pub proof fn law_content_needs_an_established_session(
    session: SessionView,
    plain: Seq<u8>,
    msg: MessageView,
    fresh: Seq<u8>,
)
    requires
        session.state !is Established,
    ensures
        session.sending(plain) == Err::<MessageView, ErrorView>(ErrorView::WrongState),
        session.receiving(msg, fresh) == Err::<Seq<u8>, ErrorView>(ErrorView::WrongState),
        session.after_send() == session,
        session.after_receive(msg, fresh) == session,
{
}

/// The handshake establishes both sides. One side offered and the other answered; the answer
/// completes the offer, its acknowledgement opens for the side that answered, and from then on each
/// side expects what the other sends.
///
/// What [`Session::accept`], [`Session::receive_accept`], [`Session::make_ack`] and
/// [`Session::receive_ack`] promise of the keys is taken as given. The fresh keys that the two sides
/// draw must share secrets with each other, and must not be ones that were used before.
pub proof fn law_handshake_establishes_both(
    offerer: SessionView,
    offering: IdentityView,
    spk: Seq<u8>,
    opk: Seq<u8>,
    answerer: SessionView,
    answering: IdentityView,
    ek: Seq<u8>,
    response: ResponseView,
    fresh: Seq<u8>,
    ack: MessageView,
    next: Seq<u8>,
    last: Seq<u8>,
)
    requires
        offering.consistent(),
        answering.consistent(),
        spk.len() == 32 && opk.len() == 32 && ek.len() == 32 && fresh.len() == 32,
        offerer.state == (StateView::Offered { pending: OfferView::of(offering, spk, opk) }),
        answerer.state == (StateView::OfferReceived {
            bundle: OfferView::of(offering, spk, opk).bundle,
        }),
        answerer.accepting(answering, ek) == Ok::<ResponseView, ErrorView>(response),
        response.signed(),
        !offerer.trust.refuses(fingerprint_of(response.sik)),
        completes(
            OfferView::of(offering, spk, opk).bundle,
            response,
            answerer.after_accept(answering, ek).state->AwaitingAck_ratchet,
        ),
        x25519_of(fresh, response.ek) != zeros32(),
        expected(
            offering,
            OfferView::of(offering, spk, opk),
            response,
            offerer.after_complete(offering, response, fresh).state->Established_ratchet,
        ),
        x25519_public_of(fresh) != x25519_public_of(spk),
        offerer.after_complete(offering, response, fresh).sending(Seq::empty()) == Ok::<
            MessageView,
            ErrorView,
        >(ack),
        delivers(
            offerer.after_complete(offering, response, fresh).state->Established_ratchet,
            ack,
            Seq::empty(),
        ),
        answerer.after_accept(answering, ek).state->AwaitingAck_ratchet.turned(
            x25519_public_of(fresh),
            next,
        ) is Ok,
        mutual(next, x25519_public_of(fresh)),
        x25519_public_of(next) != response.ek,
        x25519_of(last, x25519_public_of(next)) != zeros32(),
    ensures
        ({
            let offered = offerer.after_complete(offering, response, fresh);
            let answered = answerer.after_accept(answering, ek);
            &&& offerer.completing(offering, response, fresh) is Ok
            &&& offered.state is Established
            &&& answered.acknowledging(ack, next) is Ok
            &&& answered.after_ack(ack, next).state is Established
            &&& answered.after_ack(ack, next).state->Established_ratchet.expects(
                offered.after_send().state->Established_ratchet,
                last,
            )
            &&& offered.after_send().state->Established_ratchet.expects(
                answered.after_ack(ack, next).state->Established_ratchet,
                last,
            )
        }),
{
    let pending = OfferView::of(offering, spk, opk);
    let offered = offerer.after_complete(offering, response, fresh);
    let answered = answerer.after_accept(answering, ek);
    let ours = offered.state->Established_ratchet;
    let theirs = answered.state->AwaitingAck_ratchet;
    assert(completed(offering, pending, response, fresh) is Ok);
    assert(offered.state == (StateView::Established { ratchet: ours }));
    assert(ours.dhs_public == x25519_public_of(fresh));
    assert(accepted(answering, pending.bundle, ek)->Ok_0.1.expects(ours, next));
    assert(theirs.expects(ours, next));
    assert(theirs.decrypted(ack, next) is Ok);
    let sent = ours.after_encrypt();
    let turned = theirs.turned(x25519_public_of(fresh), next)->Ok_0;
    let heard = theirs.after_decrypt(ack, next);
    assert(theirs.readied(ack, next) == Ok::<RatchetView, ErrorView>(turned));
    assert(in_step(sent, heard));
    assert(x25519_of(next, x25519_public_of(fresh)) == x25519_of(fresh, x25519_public_of(next)));
    law_turn_in_step(ours, theirs, next, last);
    let replied = sent.turned(x25519_public_of(next), last)->Ok_0;
    assert(heard.dhs_public == x25519_public_of(next));
    assert(in_step(heard, replied));
}

/// A peer whose key changed is refused until the change is confirmed: the session and the pin stay
/// as they were, and once the new key is confirmed the same answer is taken.
pub proof fn law_changed_key_is_refused(
    session: SessionView,
    identity: IdentityView,
    response: ResponseView,
    fresh: Seq<u8>,
)
    requires
        session.state matches StateView::Offered { pending } && completed(
            identity,
            pending,
            response,
            fresh,
        ) is Ok,
        session.trust.refuses(fingerprint_of(response.sik)),
    ensures
        session.completing(identity, response, fresh) == Err::<(), ErrorView>(
            ErrorView::FingerprintChanged {
                previous: session.trust.pinned->0,
                current: fingerprint_of(response.sik),
            },
        ),
        session.after_complete(identity, response, fresh) == session,
        (SessionView {
            trust: TrustView { pinned: Some(fingerprint_of(response.sik)), verified: false },
            ..session
        }).completing(identity, response, fresh) is Ok,
{
}

/// A lost or forged acknowledgement leaves a session exactly where it was.
pub proof fn law_bad_ack_changes_nothing(session: SessionView, msg: MessageView, fresh: Seq<u8>)
    requires
        session.acknowledging(msg, fresh) is Err,
    ensures
        session.after_ack(msg, fresh) == session,
{
}

} // verus!

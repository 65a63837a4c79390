//! SASL authentication.
//!
//! The exchange runs inside capability negotiation: `CAP END` must not be sent while it is in
//! flight, because a server that sees it aborts and registers the connection unauthenticated.

use vstd::prelude::*;
use vstd::string::*;
use vstd::utf8::encode_utf8;

use crate::crypto::{base64_bytes, base64_of, decode_base64, encode_base64};
use crate::sdp::concatenated;
use crate::text::{
    chars_of, fields, lower, quote, quoted, same, same_ignoring_case, split_on, string_between,
};

verus! {

/// The most base64 that one `AUTHENTICATE` line may carry.
pub const CHUNK: usize = 400;

/// What to authenticate with.
#[derive(Clone, PartialEq, Eq)]
#[non_exhaustive]
#[allow(inconsistent_fields)]
pub enum Credentials {
    /// A username and password in the clear, so only over TLS.
    Plain {
        /// The account to log in as.
        username: String,
        /// Its password.
        password: String,
    },
    /// Authenticate with the TLS client certificate that the host already presented.
    External,
    /// Prove that we know the password without sending it.
    ///
    /// Preferred over [`Credentials::Plain`] wherever the server offers it: the password never
    /// crosses the wire, a recording of the exchange cannot be replayed, and the server has to
    /// prove that it knows the password too.
    Scram {
        /// The account to log in as.
        username: String,
        /// Its password.
        password: String,
        /// Unpredictable characters, never reused. There is no entropy source here, so the host
        /// supplies this, and reusing one destroys the replay protection.
        nonce: String,
    },
}

/// What [`Credentials`] say.
#[allow(inconsistent_fields)]
pub enum CredentialsView {
    Plain { username: Seq<char>, password: Seq<char> },
    External,
    Scram { username: Seq<char>, password: Seq<char>, nonce: Seq<char> },
}

impl View for Credentials {
    type V = CredentialsView;

    open spec fn view(&self) -> CredentialsView {
        match self {
            Credentials::Plain { username, password } => CredentialsView::Plain {
                username: username@,
                password: password@,
            },
            Credentials::External => CredentialsView::External,
            Credentials::Scram { username, password, nonce } => CredentialsView::Scram {
                username: username@,
                password: password@,
                nonce: nonce@,
            },
        }
    }
}

impl DeepView for Credentials {
    type V = CredentialsView;

    open spec fn deep_view(&self) -> CredentialsView {
        self@
    }
}

impl CredentialsView {
    /// The name of the mechanism.
    pub open spec fn mechanism(self) -> Seq<char> {
        match self {
            CredentialsView::Plain { .. } => "PLAIN"@,
            CredentialsView::External => "EXTERNAL"@,
            CredentialsView::Scram { .. } => "SCRAM-SHA-256"@,
        }
    }

    /// The bytes that answer the server's invitation.
    pub open spec fn response(self) -> Seq<u8> {
        match self {
            CredentialsView::Plain { username, password } => seq![0u8] + encode_utf8(username)
                + seq![0u8] + encode_utf8(password),
            _ => Seq::empty(),
        }
    }

    /// What a log may show.
    pub open spec fn shown(self) -> Seq<char> {
        match self {
            CredentialsView::Plain { username, .. } => "Plain { username: "@ + quoted(username)
                + ", password: \"<redacted>\" }"@,
            CredentialsView::External => "External"@,
            CredentialsView::Scram { username, .. } => "Scram { username: "@ + quoted(username)
                + ", password: \"<redacted>\", .. }"@,
        }
    }
}

impl Credentials {
    /// The mechanism name to send in the opening `AUTHENTICATE`.
    pub fn mechanism(&self) -> (r: &'static str)
        ensures
            r@ == self@.mechanism(),
    {
        match self {
            Credentials::Plain { .. } => "PLAIN",
            Credentials::External => "EXTERNAL",
            Credentials::Scram { .. } => "SCRAM-SHA-256",
        }
    }

    /// These credentials for a log, without what is secret in them.
    ///
    /// A host is likely to log how it is configured while it works out why a connection failed.
    pub fn redacted(&self) -> (r: String)
        ensures
            r@ == self@.shown(),
    {
        match self {
            Credentials::Plain { username, .. } => {
                let mut out = "Plain { username: ".to_owned();
                out.append(&quote(username));
                out.append(", password: \"<redacted>\" }");
                out
            },
            Credentials::External => "External".to_owned(),
            Credentials::Scram { username, .. } => {
                let mut out = "Scram { username: ".to_owned();
                out.append(&quote(username));
                out.append(", password: \"<redacted>\", .. }");
                out
            },
        }
    }

    /// The response payload, before base64 and chunking.
    ///
    /// The authorisation identity stays empty, which asks the server to authorise as whoever we
    /// authenticated as.
    pub fn response(&self) -> (r: Vec<u8>)
        ensures
            r@ == self@.response(),
    {
        match self {
            Credentials::Plain { username, password } => {
                let mut out: Vec<u8> = Vec::new();
                out.push(0);
                let mut name = username.as_str().as_bytes_vec();
                out.append(&mut name);
                out.push(0);
                let mut secret = password.as_str().as_bytes_vec();
                out.append(&mut secret);
                assert(out@ =~= self@.response());
                out
            },
            _ => {
                let out: Vec<u8> = Vec::new();
                assert(out@ =~= self@.response());
                out
            },
        }
    }

    /// True when this mechanism needs more than one round trip.
    pub fn is_challenge_response(&self) -> (r: bool)
        ensures
            r == (self@ is Scram),
    {
        match self {
            Credentials::Scram { .. } => true,
            _ => false,
        }
    }

    /// The same credentials once more.
    pub(crate) fn copy(&self) -> (r: Self)
        ensures
            r@ == self@,
    {
        match self {
            Credentials::Plain { username, password } => Credentials::Plain {
                username: username.clone(),
                password: password.clone(),
            },
            Credentials::External => Credentials::External,
            Credentials::Scram { username, password, nonce } => Credentials::Scram {
                username: username.clone(),
                password: password.clone(),
                nonce: nonce.clone(),
            },
        }
    }
}

/// A text cut into pieces of this many characters, the last perhaps shorter.
pub open spec fn cut_every(text: Seq<char>, size: nat) -> Seq<Seq<char>>
    decreases text.len(),
{
    if text.len() == 0 || size == 0 {
        Seq::empty()
    } else if text.len() <= size {
        seq![text]
    } else {
        seq![text.take(size as int)] + cut_every(text.skip(size as int), size)
    }
}

/// The lines that carry a text of base64. Where the last of them is full, a `+` says that it is
/// the last: the server could not tell it from one that goes on, and would wait forever.
pub open spec fn lines_of(encoded: Seq<char>) -> Seq<Seq<char>> {
    if encoded.len() % CHUNK as nat == 0 {
        cut_every(encoded, CHUNK as nat).push("+"@)
    } else {
        cut_every(encoded, CHUNK as nat)
    }
}

/// The lines that carry a response. An empty response is a single `+`.
pub open spec fn response_lines(payload: Seq<u8>) -> Seq<Seq<char>> {
    if payload.len() == 0 {
        seq!["+"@]
    } else {
        lines_of(base64_of(payload))
    }
}

/// Split a text of base64 into the payloads of consecutive `AUTHENTICATE` lines.
pub fn chunk_response(encoded: &str) -> (r: Vec<String>)
    ensures
        r.deep_view() == lines_of(encoded@),
{
    let chars = chars_of(encoded);
    let mut lines: Vec<String> = Vec::new();
    let mut from: usize = 0;
    assert(chars@.skip(0) =~= chars@);
    assert(lines.deep_view() + cut_every(chars@, CHUNK as nat) =~= cut_every(chars@, CHUNK as nat));
    while from < chars.len()
        invariant
            from <= chars@.len(),
            lines.deep_view() + cut_every(chars@.skip(from as int), CHUNK as nat) == cut_every(
                chars@,
                CHUNK as nat,
            ),
        decreases chars@.len() - from,
    {
        let ghost rest = chars@.skip(from as int);
        let ghost had = lines.deep_view();
        let to: usize = if chars.len() - from <= CHUNK {
            chars.len()
        } else {
            from + CHUNK
        };
        let line = string_between(&chars, from, to);
        lines.push(line);
        assert(lines.deep_view() =~= had.push(line@));
        proof {
            let more = chars@.skip(to as int);
            if to - from == rest.len() {
                assert(line@ =~= rest);
                assert(more =~= Seq::empty());
            } else {
                assert(line@ =~= rest.take(CHUNK as int));
                assert(more =~= rest.skip(CHUNK as int));
            }
            assert(cut_every(rest, CHUNK as nat) =~= seq![line@] + cut_every(more, CHUNK as nat));
            assert(had + cut_every(rest, CHUNK as nat) =~= lines.deep_view() + cut_every(
                more,
                CHUNK as nat,
            ));
        }
        from = to;
    }
    assert(chars@.skip(from as int) =~= Seq::empty());
    assert(lines.deep_view() =~= cut_every(chars@, CHUNK as nat));
    if chars.len() % CHUNK == 0 {
        let ghost had = lines.deep_view();
        lines.push("+".to_owned());
        assert(lines.deep_view() =~= had.push("+"@));
    }
    lines
}

/// Split a response into the payloads of consecutive `AUTHENTICATE` lines.
///
/// What stands before a closing `+`, joined, decodes to the response.
pub fn encode_response(payload: &[u8]) -> (r: Vec<String>)
    ensures
        r.deep_view() == response_lines(payload@),
        payload@.len() > 0 ==> base64_bytes(
            concatenated(cut_every(base64_of(payload@), CHUNK as nat)),
        ) == Some(payload@),
{
    if payload.len() == 0 {
        let mut one: Vec<String> = Vec::new();
        one.push("+".to_owned());
        assert(one.deep_view() =~= seq!["+"@]);
        return one;
    }
    let encoded = encode_base64(payload);
    proof {
        law_cut_joins(encoded@, CHUNK as nat);
    }
    chunk_response(&encoded)
}

/// The bytes of a challenge. A `+` is an empty one.
pub open spec fn challenge(payload: Seq<char>) -> Option<Seq<u8>> {
    if payload == "+"@ {
        Some(Seq::empty())
    } else {
        base64_bytes(payload)
    }
}

/// Decode a server challenge. `+` means an empty challenge.
pub fn decode_challenge(payload: &str) -> (r: Option<Vec<u8>>)
    ensures
        r.deep_view() == challenge(payload@),
{
    if same(payload, "+") {
        let none: Vec<u8> = Vec::new();
        assert(none.deep_view() =~= Seq::empty());
        Some(none)
    } else {
        decode_base64(payload)
    }
}

/// True when a list of mechanisms names this one. An absent or empty list says nothing, so any is
/// worth a try.
pub open spec fn offered(advertised: Option<Seq<char>>, mechanism: Seq<char>) -> bool {
    match advertised {
        Some(list) => list.len() == 0 || exists|i: int|
            0 <= i < fields(list, ',').len() && lower(#[trigger] fields(list, ',')[i]) == lower(
                mechanism,
            ),
        None => true,
    }
}

/// True when the server's advertised mechanism list contains this one.
pub fn offers(advertised: Option<&str>, mechanism: &str) -> (r: bool)
    ensures
        r == offered(advertised.deep_view(), mechanism@),
{
    match advertised {
        Some(list) => {
            if list.is_empty() {
                return true;
            }
            let parts = split_on(list, ',');
            let ghost all = parts.deep_view();
            let mut i: usize = 0;
            while i < parts.len()
                invariant
                    i <= parts@.len() == all.len(),
                    all == parts.deep_view(),
                    all == fields(list@, ','),
                    advertised.deep_view() == Some(list@),
                    forall|j: int| 0 <= j < i ==> lower(#[trigger] all[j]) != lower(mechanism@),
                decreases parts@.len() - i,
            {
                if same_ignoring_case(&parts[i], mechanism) {
                    assert(lower(all[i as int]) == lower(mechanism@));
                    return true;
                }
                i = i + 1;
            }
            false
        },
        None => true,
    }
}

/// Why authentication ended without succeeding.
#[derive(Debug, Clone, Copy, PartialEq, Eq, Structural)]
#[non_exhaustive]
pub enum SaslFailure {
    /// The credentials were rejected.
    Rejected,
    /// The response was longer than the server accepts.
    TooLong,
    /// The exchange was aborted before it finished.
    Aborted,
    /// This connection already authenticated.
    AlreadyAuthenticated,
    /// The server offers no mechanism that we can speak.
    NoSharedMechanism,
    /// The server could not prove that it knows the password, so it is not the server it claims.
    ServerNotVerified,
}

/// How far authentication has got.
#[derive(Debug, Clone, Copy, PartialEq, Eq, Structural)]
pub enum SaslState {
    /// Not started, either because there are no credentials or the server offers no `sasl`.
    Idle,
    /// `AUTHENTICATE <mech>` is sent, waiting for the server to invite the response.
    Offered,
    /// The response is sent, waiting for a verdict.
    Responded,
    /// SCRAM: our first message is sent, waiting for the salt and the server's nonce.
    ScramChallenged,
    /// SCRAM: our proof is sent, waiting for the server to prove itself in return.
    ScramProved,
    /// Finished, one way or the other. Negotiation may now end.
    Settled,
}

impl SaslState {
    /// Started and not finished.
    pub open spec fn underway(self) -> bool {
        self != SaslState::Idle && self != SaslState::Settled
    }

    /// True while `CAP END` must be held back.
    pub fn in_flight(self) -> (r: bool)
        ensures
            r == self.underway(),
    {
        match self {
            SaslState::Offered
            | SaslState::Responded
            | SaslState::ScramChallenged
            | SaslState::ScramProved => true,
            _ => false,
        }
    }
}

impl Default for SaslState {
    fn default() -> (r: Self)
        ensures
            r == SaslState::Idle,
    {
        SaslState::Idle
    }
}

/// Cutting loses nothing: the pieces of a text, one after the other, are the text.
pub proof fn law_cut_joins(text: Seq<char>, size: nat)
    requires
        size > 0,
    ensures
        concatenated(cut_every(text, size)) == text,
    decreases text.len(),
{
    if text.len() == 0 {
        assert(concatenated(cut_every(text, size)) =~= text);
    } else if text.len() <= size {
        let one = seq![text];
        assert(one.drop_last() =~= Seq::empty());
        assert(concatenated(one.drop_last()) =~= Seq::empty());
        assert(concatenated(one) =~= text);
    } else {
        let rest = text.skip(size as int);
        law_cut_joins(rest, size);
        crate::sdp::lemma_concatenated_first(cut_every(text, size));
        assert(cut_every(text, size).skip(1) =~= cut_every(rest, size));
        assert(text.take(size as int) + rest =~= text);
    }
}

/// No line is empty or longer than a line may be.
pub proof fn law_lines_fit(text: Seq<char>, size: nat, i: int)
    requires
        0 <= i < cut_every(text, size).len(),
    ensures
        0 < cut_every(text, size)[i].len() <= size,
    decreases text.len(),
{
    if text.len() > size && i > 0 {
        law_lines_fit(text.skip(size as int), size, i - 1);
    }
}

/// The last line of a response is never a full one, so the server knows that nothing follows.
pub proof fn law_last_line_is_short(payload: Seq<u8>)
    ensures
        response_lines(payload).len() > 0,
        response_lines(payload).last().len() < CHUNK,
{
    reveal_strlit("+");
    if payload.len() > 0 {
        let text = base64_of(payload);
        if text.len() % CHUNK as nat != 0 {
            lemma_last_piece(text, CHUNK as nat);
        }
    }
}

proof fn lemma_last_piece(text: Seq<char>, size: nat)
    requires
        size > 0,
        text.len() > 0,
        text.len() % size != 0,
    ensures
        cut_every(text, size).len() > 0,
        cut_every(text, size).last().len() < size,
    decreases text.len(),
{
    if text.len() <= size {
        if text.len() == size {
            vstd::arithmetic::div_mod::lemma_mod_self_0(size as int);
        }
    } else {
        let rest = text.skip(size as int);
        vstd::arithmetic::div_mod::lemma_mod_sub_multiples_vanish(text.len() as int, size as int);
        lemma_last_piece(rest, size);
        assert(cut_every(text, size).last() == cut_every(rest, size).last());
    }
}

/// What a log may show of credentials does not depend on the password or on the nonce.
pub proof fn law_password_is_never_shown(
    username: Seq<char>,
    password: Seq<char>,
    other: Seq<char>,
    nonce: Seq<char>,
    other_nonce: Seq<char>,
)
    ensures
        (CredentialsView::Plain { username, password }).shown() == (CredentialsView::Plain {
            username,
            password: other,
        }).shown(),
        (CredentialsView::Scram { username, password, nonce }).shown() == (CredentialsView::Scram {
            username,
            password: other,
            nonce: other_nonce,
        }).shown(),
{
}

} // verus!

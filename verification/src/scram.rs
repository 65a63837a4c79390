//! SCRAM-SHA-256.
//!
//! The password never crosses the wire. Each side proves that it knows a key derived from the
//! password and a salt that the server chose, over a nonce that both sides contributed to, so a
//! recording of the exchange cannot be replayed.
//!
//! Only the mechanism without channel binding is here, which is the one IRC servers offer. The
//! `n,,` prefix below says exactly that.

use vstd::prelude::*;
use vstd::string::*;
use vstd::utf8::{decode_utf8, encode_utf8, valid_utf8};

use crate::crypto::{
    base64_bytes, base64_of, decode_base64, encode_base64, hmac_of, hmac_sha256, sha256, sha256_of,
    utf8_text,
};
use crate::text::{
    chars_of, fields, lemma_first_at, lemma_first_at_is, parse_unsigned, quote, quoted, same,
    split_on, string_between, strip_char, unsigned, without_prefix,
};

verus! {

/// How long the nonce that we contribute is, in characters.
pub const NONCE_LEN: usize = 24;

/// The most iterations that we run.
///
/// The count comes from the server, so it could otherwise ask for billions and hang the client in
/// a loop that it cannot interrupt.
pub const MAX_ITERATIONS: u32 = 1_000_000;

/// Why an exchange could not continue.
#[derive(Debug, Clone, Copy, PartialEq, Eq, Structural)]
#[non_exhaustive]
pub enum ScramError {
    /// The server's message has not the shape that it should have.
    Malformed,
    /// The server's nonce does not start with the one we sent, so it is not answering us.
    NonceMismatch,
    /// The server asked for more iterations than we run, or for none.
    TooManyIterations,
    /// The salt was not valid base64.
    BadSalt,
    /// The server could not prove that it knows the password, so it is not the server it claims.
    ServerProofInvalid,
}

/// An exchange in progress.
///
/// Holds what the first message committed to, so that the second can be checked against it.
pub struct Scram {
    client_first_bare: String,
    client_nonce: String,
    password: String,
    server_key: Option<Vec<u8>>,
    auth_message: Option<String>,
}

/// What a [`Scram`] holds: what we sent without its header, our half of the nonce, the password,
/// and once our proof is sent, the key and the message that the server's own proof is checked with.
#[verifier::ext_equal]
pub struct ScramView {
    pub client_first_bare: Seq<char>,
    pub client_nonce: Seq<char>,
    pub password: Seq<char>,
    pub server_key: Option<Seq<u8>>,
    pub auth_message: Option<Seq<char>>,
}

impl View for Scram {
    type V = ScramView;

    closed spec fn view(&self) -> ScramView {
        ScramView {
            client_first_bare: self.client_first_bare@,
            client_nonce: self.client_nonce@,
            password: self.password@,
            server_key: self.server_key.deep_view(),
            auth_message: self.auth_message.deep_view(),
        }
    }
}

impl DeepView for Scram {
    type V = ScramView;

    open spec fn deep_view(&self) -> ScramView {
        self@
    }
}

/// True for ASCII letters and digits.
pub open spec fn alnum(c: char) -> bool {
    ('a' <= c <= 'z') || ('A' <= c <= 'Z') || ('0' <= c <= '9')
}

/// The letters and digits of a nonce, at most [`NONCE_LEN`] of them.
pub open spec fn cleaned(nonce: Seq<char>) -> Seq<char> {
    let kept = nonce.filter(|c: char| alnum(c));
    if kept.len() > NONCE_LEN {
        kept.take(NONCE_LEN as int)
    } else {
        kept
    }
}

/// What we contribute as a nonce: a comma would end the field early and let the nonce forge the
/// rest of the message. Where nothing is left it is a zero.
pub open spec fn our_nonce(nonce: Seq<char>) -> Seq<char> {
    if cleaned(nonce).len() == 0 {
        "0"@
    } else {
        cleaned(nonce)
    }
}

/// A character as a username carries it.
pub open spec fn escaped_char(c: char) -> Seq<char> {
    if c == '=' {
        "=3D"@
    } else if c == ',' {
        "=2C"@
    } else {
        seq![c]
    }
}

/// A username with the two characters that it may not carry literally written otherwise: a `,` or
/// `=` would end the field or start a new one, letting a username rewrite the message around it.
pub open spec fn escaped(username: Seq<char>) -> Seq<char>
    decreases username.len(),
{
    if username.len() == 0 {
        Seq::empty()
    } else {
        escaped(username.drop_last()) + escaped_char(username.last())
    }
}

/// The first message without its header.
pub open spec fn first_bare(username: Seq<char>, nonce: Seq<char>) -> Seq<char> {
    "n="@ + escaped(username) + ",r="@ + our_nonce(nonce)
}

/// What one part of a message gives for a key: what follows the key and a `=`.
pub open spec fn keyed(part: Seq<char>, key: char) -> Option<Seq<char>> {
    match without_prefix(part, key) {
        Some(rest) => without_prefix(rest, '='),
        None => None,
    }
}

/// The first of these parts that gives something for a key.
pub open spec fn first_keyed(parts: Seq<Seq<char>>, key: char) -> Option<Seq<char>>
    decreases parts.len(),
{
    if parts.len() == 0 {
        None
    } else {
        match keyed(parts[0], key) {
            Some(value) => Some(value),
            None => first_keyed(parts.skip(1), key),
        }
    }
}

/// A field of a comma-separated message.
pub open spec fn field_of(message: Seq<char>, key: char) -> Option<Seq<char>> {
    first_keyed(fields(message, ','), key)
}

/// What the server's first message says: the nonce of both sides, the salt in base64, and how many
/// iterations to run.
#[derive(Debug, PartialEq, Eq)]
pub struct ServerFirst {
    /// The nonce, ours and what the server put behind it.
    pub nonce: String,
    /// The salt, in base64.
    pub salt: String,
    /// How many iterations to run.
    pub iterations: u32,
}

/// What a [`ServerFirst`] says.
#[verifier::ext_equal]
pub struct ServerFirstView {
    pub nonce: Seq<char>,
    pub salt: Seq<char>,
    pub iterations: u32,
}

impl View for ServerFirst {
    type V = ServerFirstView;

    open spec fn view(&self) -> ServerFirstView {
        ServerFirstView { nonce: self.nonce@, salt: self.salt@, iterations: self.iterations }
    }
}

impl DeepView for ServerFirst {
    type V = ServerFirstView;

    open spec fn deep_view(&self) -> ServerFirstView {
        self@
    }
}

/// What the server's first message says to one who sent this nonce. The server extends our nonce;
/// one that does not is confused or replays somebody else's exchange.
pub open spec fn server_first(text: Seq<char>, client_nonce: Seq<char>) -> Result<
    ServerFirstView,
    ScramError,
> {
    match (field_of(text, 'r'), field_of(text, 's'), field_of(text, 'i')) {
        (Some(nonce), Some(salt), Some(count)) => match unsigned(count, u32::MAX as nat) {
            None => Err(ScramError::Malformed),
            Some(n) => if !client_nonce.is_prefix_of(nonce) || nonce == client_nonce {
                Err(ScramError::NonceMismatch)
            } else if n == 0 || n > MAX_ITERATIONS {
                Err(ScramError::TooManyIterations)
            } else {
                Ok(ServerFirstView { nonce, salt, iterations: n as u32 })
            },
        },
        _ => Err(ScramError::Malformed),
    }
}

/// Byte by byte, one or the other but not both.
pub open spec fn xored(a: Seq<u8>, b: Seq<u8>) -> Seq<u8> {
    Seq::new(a.len(), |i: int| a[i] ^ b[i])
}

/// One round of stretching a password: the code of the round before it, and for the first that of
/// the salt and the number one.
pub open spec fn round(password: Seq<u8>, salt: Seq<u8>, n: nat) -> Seq<u8>
    decreases n,
{
    if n <= 1 {
        hmac_of(password, salt + seq![0u8, 0u8, 0u8, 1u8])
    } else {
        hmac_of(password, round(password, salt, (n - 1) as nat))
    }
}

/// A password stretched over this many rounds.
pub open spec fn stretched(password: Seq<u8>, salt: Seq<u8>, n: nat) -> Seq<u8>
    decreases n,
{
    if n <= 1 {
        round(password, salt, 1)
    } else {
        xored(stretched(password, salt, (n - 1) as nat), round(password, salt, n))
    }
}

/// What the final message says before its proof. `biws` is base64 of the `n,,` that we opened with,
/// echoed so that the server can check that nobody rewrote it on the way.
pub open spec fn final_bare(nonce: Seq<char>) -> Seq<char> {
    "c=biws,r="@ + nonce
}

/// What both sides sign: the three messages.
pub open spec fn auth_message(first: Seq<char>, server: Seq<char>, last: Seq<char>) -> Seq<char> {
    first + ","@ + server + ","@ + last
}

/// The proof that we know the password.
pub open spec fn proof_of(salted: Seq<u8>, auth: Seq<char>) -> Seq<u8> {
    let client_key = hmac_of(salted, encode_utf8("Client Key"@));
    xored(client_key, hmac_of(sha256_of(client_key), encode_utf8(auth)))
}

impl ScramView {
    /// At the start of an exchange.
    pub open spec fn start(username: Seq<char>, password: Seq<char>, nonce: Seq<char>) -> ScramView {
        ScramView {
            client_first_bare: first_bare(username, nonce),
            client_nonce: our_nonce(nonce),
            password,
            server_key: None,
            auth_message: None,
        }
    }

    /// What our answer to the server's first message is made of: the salted password, and what both
    /// sides sign.
    pub open spec fn answered(self, server: Seq<u8>) -> Result<
        (Seq<u8>, Seq<char>, Seq<char>),
        ScramError,
    > {
        if !valid_utf8(server) {
            Err(ScramError::Malformed)
        } else {
            let text = decode_utf8(server);
            match server_first(text, self.client_nonce) {
                Err(e) => Err(e),
                Ok(first) => match base64_bytes(first.salt) {
                    None => Err(ScramError::BadSalt),
                    Some(salt) => Ok(
                        (
                            stretched(encode_utf8(self.password), salt, first.iterations as nat),
                            final_bare(first.nonce),
                            auth_message(self.client_first_bare, text, final_bare(first.nonce)),
                        ),
                    ),
                },
            }
        }
    }

    /// Our answer to the server's first message.
    pub open spec fn client_final(self, server: Seq<u8>) -> Result<Seq<u8>, ScramError> {
        match self.answered(server) {
            Err(e) => Err(e),
            Ok((salted, bare, auth)) => Ok(
                encode_utf8(bare + ",p="@ + base64_of(proof_of(salted, auth))),
            ),
        }
    }

    /// After we answered the server's first message. An answer that fails changes nothing.
    pub open spec fn after(self, server: Seq<u8>) -> ScramView {
        match self.answered(server) {
            Err(_) => self,
            Ok((salted, _, auth)) => ScramView {
                server_key: Some(hmac_of(salted, encode_utf8("Server Key"@))),
                auth_message: Some(auth),
                ..self
            },
        }
    }

    /// What the server's closing message proves.
    pub open spec fn verified(self, server: Seq<u8>) -> Result<(), ScramError> {
        if !valid_utf8(server) {
            Err(ScramError::Malformed)
        } else {
            match (field_of(decode_utf8(server), 'v'), self.server_key, self.auth_message) {
                (Some(signature), Some(key), Some(auth)) => match base64_bytes(signature) {
                    None => Err(ScramError::Malformed),
                    Some(given) => if given == hmac_of(key, encode_utf8(auth)) {
                        Ok(())
                    } else {
                        Err(ScramError::ServerProofInvalid)
                    },
                },
                _ => Err(ScramError::Malformed),
            }
        }
    }
}

fn is_alnum(c: char) -> (r: bool)
    ensures
        r == alnum(c),
{
    ('a' <= c && c <= 'z') || ('A' <= c && c <= 'Z') || ('0' <= c && c <= '9')
}

/// Strip what a nonce may not contain.
fn sanitise_nonce(nonce: &str) -> (r: String)
    ensures
        r@ == our_nonce(nonce@),
{
    let chars = chars_of(nonce);
    let ghost keep = |c: char| alnum(c);
    let mut kept: Vec<char> = Vec::new();
    let mut i: usize = 0;
    proof {
        reveal(Seq::filter);
    }
    assert(kept@ =~= chars@.take(0).filter(keep));
    while i < chars.len()
        invariant
            i <= chars@.len(),
            keep == (|c: char| alnum(c)),
            kept@ == chars@.take(i as int).filter(keep),
        decreases chars@.len() - i,
    {
        proof {
            reveal(Seq::filter);
        }
        assert(chars@.take(i + 1).drop_last() =~= chars@.take(i as int));
        if is_alnum(chars[i]) {
            kept.push(chars[i]);
        }
        i = i + 1;
    }
    assert(chars@.take(chars@.len() as int) =~= chars@);
    if kept.len() == 0 {
        return "0".to_owned();
    }
    let n: usize = if kept.len() > NONCE_LEN {
        NONCE_LEN
    } else {
        kept.len()
    };
    let out = string_between(&kept, 0, n);
    assert(out@ =~= cleaned(nonce@));
    out
}

/// Escape the two characters that a username may not carry literally.
fn saslprep(username: &str) -> (r: String)
    ensures
        r@ == escaped(username@),
{
    let chars = chars_of(username);
    let mut out = String::new();
    let mut i: usize = 0;
    assert(chars@.take(0) =~= Seq::empty());
    while i < chars.len()
        invariant
            i <= chars@.len(),
            out@ == escaped(chars@.take(i as int)),
        decreases chars@.len() - i,
    {
        assert(chars@.take(i + 1).drop_last() =~= chars@.take(i as int));
        let ghost had = out@;
        if chars[i] == '=' {
            out.append("=3D");
        } else if chars[i] == ',' {
            out.append("=2C");
        } else {
            out.push(chars[i]);
            assert(out@ =~= had + seq![chars@[i as int]]);
        }
        i = i + 1;
    }
    assert(chars@.take(chars@.len() as int) =~= chars@);
    out
}

/// Read one `k=value` field out of a comma-separated message.
pub fn field(message: &str, key: char) -> (r: Option<String>)
    ensures
        r.deep_view() == field_of(message@, key),
{
    let parts = split_on(message, ',');
    let ghost all = parts.deep_view();
    let mut i: usize = 0;
    assert(all.skip(0) =~= all);
    while i < parts.len()
        invariant
            i <= parts@.len() == all.len(),
            all == parts.deep_view(),
            all == fields(message@, ','),
            first_keyed(all, key) == first_keyed(all.skip(i as int), key),
        decreases parts@.len() - i,
    {
        assert(all.skip(i as int).skip(1) =~= all.skip(i + 1));
        assert(all.skip(i as int)[0] == parts@[i as int]@);
        if let Some(rest) = strip_char(&parts[i], key) {
            if let Some(value) = strip_char(&rest, '=') {
                return Some(value);
            }
        }
        i = i + 1;
    }
    None
}

/// True when the text begins with the prefix.
fn begins_with(text: &str, prefix: &str) -> (r: bool)
    ensures
        r == prefix@.is_prefix_of(text@),
{
    let s = chars_of(text);
    let p = chars_of(prefix);
    if p.len() > s.len() {
        return false;
    }
    let mut i: usize = 0;
    while i < p.len()
        invariant
            i <= p@.len() <= s@.len(),
            forall|j: int| 0 <= j < i ==> p@[j] == s@[j],
            p@ == prefix@,
            s@ == text@,
        decreases p@.len() - i,
    {
        if s[i] != p[i] {
            assert(text@.take(p@.len() as int)[i as int] != prefix@[i as int]);
            return false;
        }
        i = i + 1;
    }
    assert(text@.take(p@.len() as int) =~= prefix@);
    true
}

/// Read the server's first message, as one who sent this nonce.
pub fn read_server_first(text: &str, client_nonce: &str) -> (r: Result<ServerFirst, ScramError>)
    ensures
        match (server_first(text@, client_nonce@), r) {
            (Ok(said), Ok(got)) => got@ == said,
            (Err(e), Err(got)) => got == e,
            _ => false,
        },
{
    let (nonce, salt, count) = match (field(text, 'r'), field(text, 's'), field(text, 'i')) {
        (Some(nonce), Some(salt), Some(count)) => (nonce, salt, count),
        _ => return Err(ScramError::Malformed),
    };
    let iterations: u64 = match parse_unsigned(&count, u32::MAX as u64) {
        Some(n) => n,
        None => return Err(ScramError::Malformed),
    };
    if !begins_with(&nonce, client_nonce) || same(&nonce, client_nonce) {
        return Err(ScramError::NonceMismatch);
    }
    if iterations == 0 || iterations > MAX_ITERATIONS as u64 {
        return Err(ScramError::TooManyIterations);
    }
    Ok(ServerFirst { nonce, salt, iterations: iterations as u32 })
}

/// Byte by byte, one or the other but not both.
pub fn xor_bytes(a: &Vec<u8>, b: &Vec<u8>) -> (r: Vec<u8>)
    requires
        a@.len() == b@.len(),
    ensures
        r@ == xored(a@, b@),
{
    let mut out: Vec<u8> = Vec::new();
    let mut i: usize = 0;
    while i < a.len()
        invariant
            i <= a@.len() == b@.len(),
            out@ == xored(a@, b@).take(i as int),
        decreases a@.len() - i,
    {
        out.push(a[i] ^ b[i]);
        i = i + 1;
        assert(out@ =~= xored(a@, b@).take(i as int));
    }
    assert(xored(a@, b@).take(a@.len() as int) =~= xored(a@, b@));
    out
}

/// The password stretched over this many rounds.
fn hi(password: &[u8], salt: &Vec<u8>, iterations: u32) -> (r: Vec<u8>)
    requires
        iterations > 0,
    ensures
        r@ == stretched(password@, salt@, iterations as nat),
        r@.len() == 32,
{
    let mut seeded: Vec<u8> = salt.clone();
    seeded.push(0);
    seeded.push(0);
    seeded.push(0);
    seeded.push(1);
    assert(seeded@ =~= salt@ + seq![0u8, 0u8, 0u8, 1u8]);
    let mut previous = hmac_sha256(password, &seeded);
    let mut result = previous.clone();
    let mut n: u32 = 1;
    assert(result@ =~= previous@);
    while n < iterations
        invariant
            1 <= n <= iterations,
            previous@ == round(password@, salt@, n as nat),
            previous@.len() == 32,
            result@ == stretched(password@, salt@, n as nat),
            result@.len() == 32,
        decreases iterations - n,
    {
        previous = hmac_sha256(password, &previous);
        result = xor_bytes(&result, &previous);
        n = n + 1;
    }
    result
}

/// Compare without letting the time taken reveal where two values first differ.
pub fn constant_time_eq(a: &Vec<u8>, b: &Vec<u8>) -> (r: bool)
    ensures
        r == (a@ == b@),
{
    if a.len() != b.len() {
        return false;
    }
    let mut difference: u8 = 0;
    let mut i: usize = 0;
    assert(a@.take(0) =~= b@.take(0));
    while i < a.len()
        invariant
            i <= a@.len() == b@.len(),
            difference == 0 <==> a@.take(i as int) == b@.take(i as int),
        decreases a@.len() - i,
    {
        let ghost was = difference;
        let x: u8 = a[i];
        let y: u8 = b[i];
        difference = difference | (x ^ y);
        proof {
            assert((was | (x ^ y)) == 0 <==> was == 0 && x == y) by (bit_vector);
            let s = a@.take(i + 1);
            let t = b@.take(i + 1);
            assert(s =~= a@.take(i as int).push(x));
            assert(t =~= b@.take(i as int).push(y));
            if s == t {
                assert(s[i as int] == t[i as int]);
                assert(a@.take(i as int) =~= s.take(i as int));
                assert(b@.take(i as int) =~= t.take(i as int));
            }
        }
        i = i + 1;
    }
    assert(a@.take(a@.len() as int) =~= a@);
    assert(b@.take(b@.len() as int) =~= b@);
    difference == 0
}

/// Our answer before its proof, over the nonce of both sides.
pub fn client_final_bare(nonce: &str) -> (r: String)
    ensures
        r@ == final_bare(nonce@),
{
    let mut out = "c=biws,r=".to_owned();
    out.append(nonce);
    out
}

/// What both sides sign: the three messages, without headers and proofs.
pub fn signed_message(first: &str, server: &str, last: &str) -> (r: String)
    ensures
        r@ == auth_message(first@, server@, last@),
{
    let mut out = first.to_owned();
    out.append(",");
    out.append(server);
    out.append(",");
    out.append(last);
    out
}

impl Scram {
    /// Start an exchange.
    ///
    /// `nonce` must be unpredictable and never reused: it is what stops a recorded exchange being
    /// replayed. There is no entropy source here, so the host supplies it.
    pub fn new(username: &str, password: &str, nonce: &str) -> (r: Self)
        ensures
            r@ == ScramView::start(username@, password@, nonce@),
    {
        let client_nonce = sanitise_nonce(nonce);
        let mut client_first_bare = "n=".to_owned();
        client_first_bare.append(&saslprep(username));
        client_first_bare.append(",r=");
        client_first_bare.append(&client_nonce);
        Scram {
            client_first_bare,
            client_nonce,
            password: password.to_owned(),
            server_key: None,
            auth_message: None,
        }
    }

    /// This exchange for a log, without what is secret in it.
    pub fn redacted(&self) -> (r: String)
        ensures
            r@ == "Scram { client_nonce: "@ + quoted(self@.client_nonce)
                + ", password: \"<redacted>\", .. }"@,
    {
        let mut out = "Scram { client_nonce: ".to_owned();
        out.append(&quote(&self.client_nonce));
        out.append(", password: \"<redacted>\", .. }");
        out
    }

    /// The first message to send, with the header that says that we do not use channel binding.
    pub fn client_first(&self) -> (r: Vec<u8>)
        ensures
            r@ == encode_utf8("n,,"@ + self@.client_first_bare),
    {
        let mut out = "n,,".to_owned();
        out.append(&self.client_first_bare);
        out.as_str().as_bytes_vec()
    }

    /// Answer the server's first message with our proof.
    pub fn client_final(&mut self, server: &[u8]) -> (r: Result<Vec<u8>, ScramError>)
        ensures
            match (old(self)@.client_final(server@), r) {
                (Ok(message), Ok(got)) => got@ == message,
                (Err(e), Err(got)) => got == e,
                _ => false,
            },
            final(self)@ == old(self)@.after(server@),
    {
        let text = match utf8_text(server) {
            Some(text) => text,
            None => return Err(ScramError::Malformed),
        };
        let first = match read_server_first(&text, &self.client_nonce) {
            Ok(first) => first,
            Err(e) => return Err(e),
        };
        let salt = match decode_base64(&first.salt) {
            Some(salt) => salt,
            None => return Err(ScramError::BadSalt),
        };
        assert(salt.deep_view() =~= salt@);
        let salted = hi(self.password.as_str().as_bytes(), &salt, first.iterations);
        let client_key = hmac_sha256(&salted, "Client Key".as_bytes());
        let stored_key = sha256(&client_key);
        let server_key = hmac_sha256(&salted, "Server Key".as_bytes());
        assert(server_key.deep_view() =~= server_key@);
        let bare = client_final_bare(&first.nonce);
        let auth = signed_message(&self.client_first_bare, &text, &bare);
        let signature = hmac_sha256(&stored_key, auth.as_str().as_bytes());
        let proof_bytes = xor_bytes(&client_key, &signature);
        self.server_key = Some(server_key);
        self.auth_message = Some(auth);
        let mut out = bare;
        out.append(",p=");
        out.append(&encode_base64(&proof_bytes));
        Ok(out.as_str().as_bytes_vec())
    }

    /// Check the server's closing message.
    ///
    /// Skipping this means that a server that never knew the password can still convince the
    /// client that it did.
    pub fn verify(&self, server: &[u8]) -> (r: Result<(), ScramError>)
        ensures
            r == self@.verified(server@),
    {
        let text = match utf8_text(server) {
            Some(text) => text,
            None => return Err(ScramError::Malformed),
        };
        let signature = match field(&text, 'v') {
            Some(signature) => signature,
            None => return Err(ScramError::Malformed),
        };
        let (key, auth) = match (&self.server_key, &self.auth_message) {
            (Some(key), Some(auth)) => (key, auth),
            _ => return Err(ScramError::Malformed),
        };
        assert(key.deep_view() =~= key@);
        let expected = hmac_sha256(key, auth.as_str().as_bytes());
        let given = match decode_base64(&signature) {
            Some(given) => given,
            None => return Err(ScramError::Malformed),
        };
        assert(given.deep_view() =~= given@);
        if constant_time_eq(&expected, &given) {
            Ok(())
        } else {
            Err(ScramError::ServerProofInvalid)
        }
    }
}

/// True when a text holds no comma.
pub open spec fn comma_free(s: Seq<char>) -> bool {
    forall|i: int| 0 <= i < s.len() ==> #[trigger] s[i] != ','
}

/// Where the first part holds no comma, it is a field of its own.
proof fn lemma_fields_of_two(s: Seq<char>, t: Seq<char>)
    requires
        comma_free(s),
    ensures
        fields(s + seq![','] + t, ',') == seq![s] + fields(t, ','),
{
    let all = s + seq![','] + t;
    lemma_first_at_is(all, ',', s.len());
    assert(all.take(s.len() as int) =~= s);
    assert(all.skip(s.len() as int + 1) =~= t);
}

proof fn lemma_one_field(s: Seq<char>)
    requires
        comma_free(s),
    ensures
        fields(s, ',') == seq![s],
{
    lemma_first_at(s, ',');
}

/// Nothing that a username holds ends the field that it stands in.
pub proof fn law_username_cannot_forge(username: Seq<char>)
    ensures
        comma_free(escaped(username)),
    decreases username.len(),
{
    if username.len() > 0 {
        law_username_cannot_forge(username.drop_last());
        reveal_strlit("=3D");
        reveal_strlit("=2C");
    }
}

/// Nothing that a nonce holds ends the field that it stands in, and it is never empty or too long.
pub proof fn law_nonce_cannot_forge(nonce: Seq<char>)
    ensures
        comma_free(our_nonce(nonce)),
        0 < our_nonce(nonce).len() <= NONCE_LEN,
{
    reveal_strlit("0");
    let keep = |c: char| alnum(c);
    let kept = nonce.filter(keep);
    assert forall|i: int| 0 <= i < kept.len() implies #[trigger] kept[i] != ',' by {
        nonce.lemma_filter_pred(keep, i);
    }
}

/// The first message says exactly who we are and our nonce, whatever the username and the nonce
/// were made of: it has two fields, and reading them gives the username, escaped, and the nonce.
pub proof fn law_first_message_reads_back(username: Seq<char>, nonce: Seq<char>)
    ensures
        fields(first_bare(username, nonce), ',').len() == 2,
        field_of(first_bare(username, nonce), 'n') == Some(escaped(username)),
        field_of(first_bare(username, nonce), 'r') == Some(our_nonce(nonce)),
{
    law_username_cannot_forge(username);
    law_nonce_cannot_forge(nonce);
    reveal_strlit("n=");
    reveal_strlit(",r=");
    let name = "n="@ + escaped(username);
    let ours = seq!['r', '='] + our_nonce(nonce);
    assert(comma_free(name));
    assert(comma_free(ours));
    assert(first_bare(username, nonce) =~= name + seq![','] + ours);
    lemma_fields_of_two(name, ours);
    lemma_one_field(ours);
    let parts = fields(first_bare(username, nonce), ',');
    assert(parts =~= seq![name, ours]);
    assert(name.skip(1).skip(1) =~= escaped(username));
    assert(ours.skip(1).skip(1) =~= our_nonce(nonce));
    assert(keyed(name, 'n') == Some(escaped(username)));
    assert(keyed(name, 'r') is None);
    assert(keyed(ours, 'r') == Some(our_nonce(nonce)));
    assert(parts.skip(1) =~= seq![ours]);
    assert(first_keyed(parts.skip(1), 'r') == Some(our_nonce(nonce)));
}

/// A server that does not extend our nonce is refused, however well the rest of its message reads.
pub proof fn law_replayed_nonce_is_refused(scram: ScramView, server: Seq<u8>, nonce: Seq<char>)
    requires
        valid_utf8(server),
        field_of(decode_utf8(server), 'r') == Some(nonce),
        !scram.client_nonce.is_prefix_of(nonce) || nonce == scram.client_nonce,
    ensures
        scram.client_final(server) is Err,
        scram.after(server) == scram,
{
}

/// Before we sent our own proof there is nothing to check the server's against, so nothing that it
/// sends is taken for one.
pub proof fn law_no_proof_before_ours(
    username: Seq<char>,
    password: Seq<char>,
    nonce: Seq<char>,
    server: Seq<u8>,
)
    ensures
        ScramView::start(username, password, nonce).verified(server) == Err::<(), ScramError>(
            ScramError::Malformed,
        ),
{
}

/// A server is believed exactly when it sends the code of what both sides signed, under the key
/// that only one who knows the password has.
pub proof fn law_server_proof(scram: ScramView, server: Seq<u8>)
    ensures
        scram.verified(server) is Ok <==> {
            &&& valid_utf8(server)
            &&& scram.server_key is Some
            &&& scram.auth_message is Some
            &&& field_of(decode_utf8(server), 'v') is Some
            &&& base64_bytes(field_of(decode_utf8(server), 'v')->0) == Some(
                hmac_of(scram.server_key->0, encode_utf8(scram.auth_message->0)),
            )
        },
{
}

} // verus!

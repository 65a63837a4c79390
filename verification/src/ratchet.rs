//! The Double Ratchet: padding, key derivation, and one party's half of an encrypted conversation.
//!
//! The associated data of a message is a canonical encoding of its header, `dh || pn || n`.

use vstd::prelude::*;
use vstd::utf8::encode_utf8;

use crate::crypto::{
    hkdf_of, hkdf_sha256, hmac_of, hmac_sha256, open_secret, seal_secret, secret_bytes, x25519_of,
    x25519_public, x25519_public_of, x25519_shared, xchacha_open, xchacha_opened, xchacha_seal,
    xchacha_sealed, zeros32, Secret, MAX_PLAIN, TAG_LEN,
};
use crate::identity::{array32, random_array, same_bytes, Error, ErrorView, RandomSource};

verus! {

/// The bound of one skip-ahead jump: a message whose counter implies more unseen messages than this
/// in one chain is refused outright, rather than buffered.
pub const MAX_SKIP: u32 = 1000;

/// How many keys of messages that have not come are held at once, across every chain there has
/// been. Beyond this the oldest is evicted, so that a peer cannot exhaust memory by never sending
/// what a counter promised.
pub const MAX_SKIPPED_KEYS: usize = 2000;

/// Plaintext is padded to a multiple of this many bytes before encryption, so that the length of a
/// ciphertext reveals only a size bucket.
pub const PAD_BLOCK: usize = 64;

/// A number of zeros.
pub open spec fn zeros(n: nat) -> Seq<u8> {
    Seq::new(n, |i: int| 0u8)
}

/// How many zeros stand behind a marker at this place.
pub open spec fn fill(n: nat) -> nat {
    ((PAD_BLOCK - (n + 1) % (PAD_BLOCK as nat)) % (PAD_BLOCK as int)) as nat
}

/// A plaintext, a marker, and zeros up to a whole block.
pub open spec fn padded(plain: Seq<u8>) -> Seq<u8> {
    plain.push(0x80) + zeros(fill(plain.len()))
}

/// Where the last byte that is not zero stands, or before the start.
pub open spec fn marker(bytes: Seq<u8>) -> int
    decreases bytes.len(),
{
    if bytes.len() == 0 {
        -1
    } else if bytes.last() != 0 {
        bytes.len() - 1
    } else {
        marker(bytes.drop_last())
    }
}

/// What stands before the padding, where there is a padding.
pub open spec fn unpadded(bytes: Seq<u8>) -> Option<Seq<u8>> {
    if marker(bytes) >= 0 && bytes[marker(bytes)] == 0x80 {
        Some(bytes.take(marker(bytes)))
    } else {
        None
    }
}

proof fn lemma_marker(bytes: Seq<u8>, n: nat)
    requires
        bytes.len() > 0,
        bytes.last() != 0,
    ensures
        marker(bytes + zeros(n)) == bytes.len() - 1,
    decreases n,
{
    if n == 0 {
        assert(bytes + zeros(n) =~= bytes);
    } else {
        lemma_marker(bytes, (n - 1) as nat);
        assert((bytes + zeros(n)).drop_last() =~= bytes + zeros((n - 1) as nat));
    }
}

/// Padding comes off again, whatever the plaintext ends with.
pub proof fn law_unpad_padded(plain: Seq<u8>)
    ensures
        unpadded(padded(plain)) == Some(plain),
{
    lemma_marker(plain.push(0x80), fill(plain.len()));
    assert(padded(plain).take(plain.len() as int) =~= plain);
}

/// A padded plaintext is whole blocks, and longer than the plaintext by one block at most.
pub proof fn law_padded_length(plain: Seq<u8>)
    ensures
        padded(plain).len() % PAD_BLOCK as nat == 0,
        plain.len() < padded(plain).len() <= plain.len() + PAD_BLOCK,
{
    let n = plain.len() + 1;
    assert(padded(plain).len() == n + fill(plain.len()));
}

/// Pad a plaintext.
pub fn pad(plain: &[u8]) -> (r: Vec<u8>)
    ensures
        r@ == padded(plain@),
{
    let mut out = vstd::slice::slice_to_vec(plain);
    out.push(0x80);
    let missing: usize = (PAD_BLOCK - out.len() % PAD_BLOCK) % PAD_BLOCK;
    let ghost had = out@;
    let mut i: usize = 0;
    assert(out@ =~= had + zeros(0));
    while i < missing
        invariant
            i <= missing,
            out@ == had + zeros(i as nat),
        decreases missing - i,
    {
        out.push(0);
        i = i + 1;
        assert(out@ =~= had + zeros(i as nat));
    }
    out
}

/// Take the padding off.
pub fn unpad(bytes: &Vec<u8>) -> (r: Option<Vec<u8>>)
    ensures
        r.deep_view() == unpadded(bytes@),
{
    let mut n: usize = bytes.len();
    assert(bytes@.take(n as int) =~= bytes@);
    while n > 0 && bytes[n - 1] == 0
        invariant
            n <= bytes@.len(),
            marker(bytes@) == marker(bytes@.take(n as int)),
        decreases n,
    {
        assert(bytes@.take(n as int).drop_last() =~= bytes@.take(n - 1));
        n = n - 1;
    }
    assert(marker(bytes@) == n - 1);
    if n == 0 || bytes[n - 1] != 0x80 {
        return None;
    }
    let plain = vstd::slice::slice_to_vec(
        vstd::slice::slice_subrange(bytes.as_slice(), 0, n - 1),
    );
    assert(plain@ =~= bytes@.take(n - 1));
    assert(plain.deep_view() =~= plain@);
    Some(plain)
}

/// One message: a header carried as authenticated associated data, and a ciphertext.
#[derive(Debug, Clone, PartialEq, Eq)]
pub struct RatchetMessage {
    /// The sender's current ratchet public key.
    pub dh: [u8; 32],
    /// The length of the sender's previous sending chain.
    pub pn: u32,
    /// This message's counter within the sender's current chain.
    pub n: u32,
    /// The ciphertext.
    pub ct: Vec<u8>,
}

/// What a [`RatchetMessage`] says.
#[verifier::ext_equal]
pub struct MessageView {
    pub dh: Seq<u8>,
    pub pn: u32,
    pub n: u32,
    pub ct: Seq<u8>,
}

impl View for RatchetMessage {
    type V = MessageView;

    open spec fn view(&self) -> MessageView {
        MessageView { dh: self.dh@, pn: self.pn, n: self.n, ct: self.ct@ }
    }
}

/// A number as four bytes, the highest first.
pub open spec fn big_endian(n: u32) -> Seq<u8> {
    seq![
        (n / 0x1000000) as u8,
        ((n / 0x10000) % 0x100) as u8,
        ((n / 0x100) % 0x100) as u8,
        (n % 0x100) as u8,
    ]
}

/// The associated data of a message.
pub open spec fn header(dh: Seq<u8>, pn: u32, n: u32) -> Seq<u8> {
    dh + big_endian(pn) + big_endian(n)
}

fn push_big_endian(out: &mut Vec<u8>, n: u32)
    ensures
        final(out)@ == old(out)@ + big_endian(n),
{
    out.push((n / 0x1000000) as u8);
    out.push(((n / 0x10000) % 0x100) as u8);
    out.push(((n / 0x100) % 0x100) as u8);
    out.push((n % 0x100) as u8);
    assert(out@ =~= old(out)@ + big_endian(n));
}

/// The associated data of a message.
pub fn header_aad(dh: &[u8; 32], pn: u32, n: u32) -> (r: Vec<u8>)
    ensures
        r@ == header(dh@, pn, n),
{
    let mut aad = vstd::slice::slice_to_vec(dh);
    push_big_endian(&mut aad, pn);
    push_big_endian(&mut aad, n);
    aad
}

/// The key of the message that a chain has come to.
pub open spec fn message_key(chain: Seq<u8>) -> Seq<u8> {
    hmac_of(chain, seq![1u8])
}

/// The chain after that message.
pub open spec fn next_chain(chain: Seq<u8>) -> Seq<u8> {
    hmac_of(chain, seq![2u8])
}

/// The root after a shared secret was mixed in, and the chain that it starts.
pub open spec fn root_step(root: Seq<u8>, dh: Seq<u8>) -> (Seq<u8>, Seq<u8>) {
    let okm = hkdf_of(root, dh, encode_utf8("obby.world/e2ee root"@), 64);
    (okm.subrange(0, 32), okm.subrange(32, 64))
}

/// The cipher key that a message key gives.
pub open spec fn cipher_key(key: Seq<u8>) -> Seq<u8> {
    hkdf_of(zeros32(), key, encode_utf8("obby.world/e2ee message"@), 32)
}

/// The nonce that a message key gives.
pub open spec fn cipher_nonce(key: Seq<u8>) -> Seq<u8> {
    hkdf_of(zeros32(), key, encode_utf8("obby.world/e2ee nonce"@), 24)
}

/// A plaintext under a message key, unless it is too long to encrypt.
pub open spec fn sealed(key: Seq<u8>, aad: Seq<u8>, plain: Seq<u8>) -> Option<Seq<u8>> {
    if padded(plain).len() > MAX_PLAIN {
        None
    } else {
        Some(xchacha_sealed(cipher_key(key), cipher_nonce(key), aad, padded(plain)))
    }
}

/// What a message says under a message key.
pub open spec fn opened(key: Seq<u8>, msg: MessageView) -> Result<Seq<u8>, ErrorView> {
    let aad = header(msg.dh, msg.pn, msg.n);
    if msg.ct.len() > MAX_PLAIN + TAG_LEN {
        Err(ErrorView::Aead)
    } else {
        match xchacha_opened(cipher_key(key), cipher_nonce(key), aad, msg.ct) {
            None => Err(ErrorView::Aead),
            Some(bytes) => match unpadded(bytes) {
                None => Err(ErrorView::Padding),
                Some(plain) => Ok(plain),
            },
        }
    }
}

fn kdf_chain(chain: &[u8; 32]) -> (r: ([u8; 32], [u8; 32]))
    ensures
        r.0@ == message_key(chain@),
        r.1@ == next_chain(chain@),
{
    let one: [u8; 1] = [1u8];
    let two: [u8; 1] = [2u8];
    assert(one@ =~= seq![1u8]);
    assert(two@ =~= seq![2u8]);
    let key = hmac_sha256(chain, &one);
    let next = hmac_sha256(chain, &two);
    assert(key@.subrange(0, 32) =~= key@);
    assert(next@.subrange(0, 32) =~= next@);
    (array32(&key, 0), array32(&next, 0))
}

fn kdf_root(root: &[u8; 32], dh: &[u8; 32]) -> (r: ([u8; 32], [u8; 32]))
    ensures
        r.0@ == root_step(root@, dh@).0,
        r.1@ == root_step(root@, dh@).1,
{
    let okm = hkdf_sha256(root, dh, "obby.world/e2ee root".as_bytes(), 64);
    (array32(&okm, 0), array32(&okm, 32))
}

fn message_aead_params(key: &[u8; 32]) -> (r: ([u8; 32], [u8; 24]))
    ensures
        r.0@ == cipher_key(key@),
        r.1@ == cipher_nonce(key@),
{
    let salt: [u8; 32] = [0u8; 32];
    assert(salt@ =~= zeros32());
    let bytes = hkdf_sha256(&salt, key, "obby.world/e2ee message".as_bytes(), 32);
    let nonce = hkdf_sha256(&salt, key, "obby.world/e2ee nonce".as_bytes(), 24);
    let mut out: [u8; 24] = [0u8; 24];
    let mut i: usize = 0;
    while i < 24
        invariant
            i <= 24 == nonce@.len(),
            forall|j: int| 0 <= j < i ==> out@[j] == nonce@[j],
        decreases 24 - i,
    {
        out[i] = nonce[i];
        i = i + 1;
    }
    assert(out@ =~= nonce@);
    assert(bytes@.subrange(0, 32) =~= bytes@);
    (array32(&bytes, 0), out)
}

fn aead_encrypt(key: &[u8; 32], aad: &Vec<u8>, plain: &[u8]) -> (r: Option<Vec<u8>>)
    ensures
        match r {
            Some(ct) => {
                &&& sealed(key@, aad@, plain@) == Some(ct@)
                &&& ct@.len() == padded(plain@).len() + TAG_LEN
                &&& xchacha_opened(cipher_key(key@), cipher_nonce(key@), aad@, ct@) == Some(
                    padded(plain@),
                )
            },
            None => sealed(key@, aad@, plain@) is None,
        },
{
    let bytes = pad(plain);
    if bytes.len() as u64 > MAX_PLAIN {
        return None;
    }
    let (cipher, nonce) = message_aead_params(key);
    Some(xchacha_seal(&cipher, &nonce, aad, &bytes))
}

fn decrypt_with_key(key: &[u8; 32], msg: &RatchetMessage) -> (r: Result<Vec<u8>, Error>)
    ensures
        match (opened(key@, msg@), r) {
            (Ok(plain), Ok(got)) => got@ == plain,
            (Err(e), Err(got)) => got@ == e,
            _ => false,
        },
{
    if msg.ct.len() > TAG_LEN && (msg.ct.len() - TAG_LEN) as u64 > MAX_PLAIN {
        return Err(Error::Aead);
    }
    let aad = header_aad(&msg.dh, msg.pn, msg.n);
    let (cipher, nonce) = message_aead_params(key);
    match xchacha_open(&cipher, &nonce, &aad, &msg.ct) {
        None => Err(Error::Aead),
        Some(bytes) => {
            assert(bytes.deep_view() =~= bytes@);
            match unpad(&bytes) {
                None => Err(Error::Padding),
                Some(plain) => {
                    assert(plain.deep_view() =~= plain@);
                    Ok(plain)
                },
            }
        },
    }
}

/// A key of a message that has not come: the chain that it belongs to, its counter, and the key.
struct Skipped {
    dh: [u8; 32],
    n: u32,
    key: Secret,
}

/// What a held key is for, and what it is.
#[verifier::ext_equal]
pub struct SkippedView {
    pub dh: Seq<u8>,
    pub n: u32,
    pub key: Seq<u8>,
}

impl View for Skipped {
    type V = SkippedView;

    closed spec fn view(&self) -> SkippedView {
        SkippedView { dh: self.dh@, n: self.n, key: secret_bytes(self.key) }
    }
}

impl DeepView for Skipped {
    type V = SkippedView;

    closed spec fn deep_view(&self) -> SkippedView {
        self@
    }
}

/// Where the key for a message is among those held, or how many there are where it is not.
pub open spec fn place_of(held: Seq<SkippedView>, dh: Seq<u8>, n: u32) -> int
    decreases held.len(),
{
    if held.len() == 0 || (held[0].dh == dh && held[0].n == n) {
        0
    } else {
        1 + place_of(held.skip(1), dh, n)
    }
}

/// With a key held: in the place of one for the same message, or as the newest.
pub open spec fn placed(held: Seq<SkippedView>, one: SkippedView) -> Seq<SkippedView> {
    let i = place_of(held, one.dh, one.n);
    if i < held.len() {
        held.update(i, one)
    } else {
        held.push(one)
    }
}

/// The newest keys, as many as may be held.
pub open spec fn newest(held: Seq<SkippedView>) -> Seq<SkippedView> {
    if held.len() > MAX_SKIPPED_KEYS {
        held.skip(held.len() - MAX_SKIPPED_KEYS)
    } else {
        held
    }
}

/// True when no two of the keys that are held are for one message.
pub open spec fn one_key_each(held: Seq<SkippedView>) -> bool {
    forall|i: int, j: int|
        0 <= i < j < held.len() ==> (#[trigger] held[i]).dh != (#[trigger] held[j]).dh || held[i].n
            != held[j].n
}

proof fn lemma_place(held: Seq<SkippedView>, dh: Seq<u8>, n: u32)
    ensures
        0 <= place_of(held, dh, n) <= held.len(),
        place_of(held, dh, n) < held.len() ==> held[place_of(held, dh, n)].dh == dh
            && held[place_of(held, dh, n)].n == n,
        forall|i: int|
            0 <= i < place_of(held, dh, n) ==> (#[trigger] held[i]).dh != dh || held[i].n != n,
    decreases held.len(),
{
    if held.len() > 0 && !(held[0].dh == dh && held[0].n == n) {
        lemma_place(held.skip(1), dh, n);
        assert forall|i: int| 0 <= i < place_of(held, dh, n) implies (#[trigger] held[i]).dh != dh
            || held[i].n != n by {
            if i > 0 {
                assert(held.skip(1)[i - 1] == held[i]);
            }
        }
    }
}

fn find_key(held: &Vec<Skipped>, dh: &[u8; 32], n: u32) -> (r: usize)
    ensures
        r == place_of(held.deep_view(), dh@, n),
        r <= held@.len(),
{
    let ghost all = held.deep_view();
    let mut i: usize = 0;
    assert(all.skip(0) =~= all);
    while i < held.len() && !(held[i].n == n && same_bytes(&held[i].dh, dh))
        invariant
            i <= held@.len() == all.len(),
            all == held.deep_view(),
            place_of(all, dh@, n) == i + place_of(all.skip(i as int), dh@, n),
        decreases held@.len() - i,
    {
        assert(all.skip(i as int)[0] == held@[i as int]@);
        assert(all.skip(i as int).skip(1) =~= all.skip(i + 1));
        i = i + 1;
    }
    if i < held.len() {
        assert(all.skip(i as int)[0] == held@[i as int]@);
    }
    i
}

fn keep_key(held: &mut Vec<Skipped>, dh: &[u8; 32], n: u32, key: &[u8; 32])
    ensures
        final(held).deep_view() == newest(
            placed(old(held).deep_view(), (SkippedView { dh: dh@, n, key: key@ })),
        ),
{
    let ghost before = held.deep_view();
    let one = Skipped { dh: *dh, n, key: seal_secret(key) };
    let ghost kept = SkippedView { dh: dh@, n, key: key@ };
    assert(one@ == kept);
    let i: usize = find_key(held, dh, n);
    if i < held.len() {
        held.set(i, one);
        assert(held.deep_view() =~= before.update(i as int, kept));
    } else {
        held.push(one);
        assert(held.deep_view() =~= before.push(kept));
    }
    let ghost all = held.deep_view();
    let ghost mut gone: int = 0;
    assert(all.skip(0) =~= all);
    while held.len() > MAX_SKIPPED_KEYS
        invariant
            0 <= gone <= all.len(),
            held@.len() == all.len() - gone,
            held.deep_view() == all.skip(gone),
            gone > 0 ==> held@.len() >= MAX_SKIPPED_KEYS,
        decreases held@.len(),
    {
        let ghost had = held.deep_view();
        held.remove(0);
        proof {
            gone = gone + 1;
        }
        assert(held.deep_view() =~= had.skip(1));
        assert(had.skip(1) =~= all.skip(gone));
    }
}

/// The keys of messages that have not come, the newest last: one for each, and no more than may be
/// held.
struct Held {
    keys: Vec<Skipped>,
}

impl View for Held {
    type V = Seq<SkippedView>;

    closed spec fn view(&self) -> Seq<SkippedView> {
        self.keys.deep_view()
    }
}

impl Held {
    #[verifier::type_invariant]
    spec fn well_formed(&self) -> bool {
        &&& self@.len() <= MAX_SKIPPED_KEYS
        &&& one_key_each(self@)
    }

    fn new() -> (r: Self)
        ensures
            r@ == Seq::<SkippedView>::empty(),
    {
        let keys: Vec<Skipped> = Vec::new();
        assert(keys.deep_view() =~= Seq::<SkippedView>::empty());
        Held { keys }
    }

    fn copy(&self) -> (r: Self)
        ensures
            r@ == self@,
    {
        proof {
            use_type_invariant(self);
        }
        Held { keys: copy_keys(&self.keys) }
    }

    /// Where the key for a message is, or nothing where it is not held.
    fn find(&self, dh: &[u8; 32], n: u32) -> (r: Option<usize>)
        ensures
            match r {
                Some(i) => i == place_of(self@, dh@, n) && i < self@.len(),
                None => place_of(self@, dh@, n) == self@.len(),
            },
    {
        let i: usize = find_key(&self.keys, dh, n);
        assert(self@.len() == self.keys@.len());
        if i < self.keys.len() {
            Some(i)
        } else {
            None
        }
    }

    /// Take the key at this place.
    fn take(&mut self, i: usize) -> (r: [u8; 32])
        requires
            i < old(self)@.len(),
        ensures
            r@ == old(self)@[i as int].key,
            final(self)@ == old(self)@.remove(i as int),
    {
        proof {
            use_type_invariant(&*self);
            lemma_one_key_each_without(self@, i as int);
        }
        let ghost had = self@;
        let mut keys: Vec<Skipped> = Vec::new();
        core::mem::swap(&mut keys, &mut self.keys);
        let one = keys.remove(i);
        assert(one@ == had[i as int]);
        assert(keys.deep_view() =~= had.remove(i as int));
        self.keys = keys;
        *open_secret(&one.key)
    }

    /// Hold a key, in the place of the oldest where there is no room.
    fn keep(&mut self, dh: &[u8; 32], n: u32, key: &[u8; 32])
        ensures
            final(self)@ == newest(
                placed(old(self)@, (SkippedView { dh: dh@, n, key: key@ })),
            ),
    {
        proof {
            use_type_invariant(&*self);
            lemma_one_key_each_with(self@, (SkippedView { dh: dh@, n, key: key@ }));
        }
        let mut keys: Vec<Skipped> = Vec::new();
        core::mem::swap(&mut keys, &mut self.keys);
        keep_key(&mut keys, dh, n, key);
        self.keys = keys;
    }
}

proof fn lemma_one_key_each_without(held: Seq<SkippedView>, i: int)
    requires
        one_key_each(held),
        0 <= i < held.len(),
    ensures
        one_key_each(held.remove(i)),
{
    let left = held.remove(i);
    assert forall|a: int, b: int| 0 <= a < b < left.len() implies (#[trigger] left[a]).dh != (
    #[trigger] left[b]).dh || left[a].n != left[b].n by {
        let a0 = if a < i { a } else { a + 1 };
        let b0 = if b < i { b } else { b + 1 };
        assert(left[a] == held[a0] && left[b] == held[b0]);
    }
}

proof fn lemma_one_key_each_with(held: Seq<SkippedView>, one: SkippedView)
    requires
        one_key_each(held),
    ensures
        one_key_each(newest(placed(held, one))),
{
    lemma_place(held, one.dh, one.n);
}

/// One party's half of an encrypted conversation: a sending chain, a receiving chain, and the keys
/// that let messages come out of order.
pub struct Ratchet {
    root_key: Secret,
    dhs_secret: Secret,
    dhs_public: [u8; 32],
    dhr: Option<[u8; 32]>,
    send_chain: Option<Secret>,
    recv_chain: Option<Secret>,
    n_send: u32,
    n_recv: u32,
    prev_chain_len: u32,
    skipped: Held,
}

/// What a [`Ratchet`] holds.
#[verifier::ext_equal]
pub struct RatchetView {
    pub root_key: Seq<u8>,
    pub dhs_secret: Seq<u8>,
    pub dhs_public: Seq<u8>,
    pub dhr: Option<Seq<u8>>,
    pub send_chain: Option<Seq<u8>>,
    pub recv_chain: Option<Seq<u8>>,
    pub n_send: u32,
    pub n_recv: u32,
    pub prev_chain_len: u32,
    pub skipped: Seq<SkippedView>,
}

/// The bytes of a secret that may be missing.
pub open spec fn chain_bytes(chain: Option<Secret>) -> Option<Seq<u8>> {
    match chain {
        Some(chain) => Some(secret_bytes(chain)),
        None => None,
    }
}

/// The bytes of a key that may be missing.
pub open spec fn key_bytes(key: Option<[u8; 32]>) -> Option<Seq<u8>> {
    match key {
        Some(key) => Some(key@),
        None => None,
    }
}

impl View for Ratchet {
    type V = RatchetView;

    closed spec fn view(&self) -> RatchetView {
        RatchetView {
            root_key: secret_bytes(self.root_key),
            dhs_secret: secret_bytes(self.dhs_secret),
            dhs_public: self.dhs_public@,
            dhr: key_bytes(self.dhr),
            send_chain: chain_bytes(self.send_chain),
            recv_chain: chain_bytes(self.recv_chain),
            n_send: self.n_send,
            n_recv: self.n_recv,
            prev_chain_len: self.prev_chain_len,
            skipped: self.skipped@,
        }
    }
}

impl RatchetView {
    /// The responder's, at the start: with a sending chain against the initiator's prekey.
    pub open spec fn responder(
        root: Seq<u8>,
        ek_secret: Seq<u8>,
        ek_public: Seq<u8>,
        spk: Seq<u8>,
    ) -> Result<RatchetView, ErrorView> {
        let dh = x25519_of(ek_secret, spk);
        if dh == zeros32() {
            Err(ErrorView::NonContributoryDh)
        } else {
            Ok(
                RatchetView {
                    root_key: root_step(root, dh).0,
                    dhs_secret: ek_secret,
                    dhs_public: ek_public,
                    dhr: Some(spk),
                    send_chain: Some(root_step(root, dh).1),
                    recv_chain: None,
                    n_send: 0,
                    n_recv: 0,
                    prev_chain_len: 0,
                    skipped: Seq::empty(),
                },
            )
        }
    }

    /// The initiator's, at the start: the first message that comes supplies the peer's key.
    pub open spec fn initiator(
        root: Seq<u8>,
        spk_secret: Seq<u8>,
        spk_public: Seq<u8>,
    ) -> RatchetView {
        RatchetView {
            root_key: root,
            dhs_secret: spk_secret,
            dhs_public: spk_public,
            dhr: None,
            send_chain: None,
            recv_chain: None,
            n_send: 0,
            n_recv: 0,
            prev_chain_len: 0,
            skipped: Seq::empty(),
        }
    }

    /// With the sending chain one step on.
    pub open spec fn stepped(self) -> RatchetView {
        RatchetView { send_chain: Some(next_chain(self.send_chain->0)), ..self }
    }

    /// After a message was encrypted. The chain advances even where the message fails.
    pub open spec fn after_encrypt(self) -> RatchetView {
        if self.send_chain is None {
            self
        } else if self.n_send == u32::MAX {
            self.stepped()
        } else {
            RatchetView { n_send: (self.n_send + 1) as u32, ..self.stepped() }
        }
    }

    /// The message that carries a plaintext.
    pub open spec fn encrypted(self, plain: Seq<u8>) -> Result<MessageView, ErrorView> {
        match self.send_chain {
            None => Err(ErrorView::NoChain),
            Some(chain) => if self.n_send == u32::MAX {
                Err(ErrorView::CounterOverflow)
            } else {
                let aad = header(self.dhs_public, self.prev_chain_len, self.n_send);
                match sealed(message_key(chain), aad, plain) {
                    None => Err(ErrorView::Aead),
                    Some(ct) => Ok(
                        MessageView {
                            dh: self.dhs_public,
                            pn: self.prev_chain_len,
                            n: self.n_send,
                            ct,
                        },
                    ),
                }
            },
        }
    }

    /// With the keys of the next messages of the receiving chain held.
    pub open spec fn skipping(self, count: nat) -> RatchetView
        decreases count,
    {
        if count == 0 {
            self
        } else {
            let s = self.skipping((count - 1) as nat);
            let chain = s.recv_chain->0;
            RatchetView {
                skipped: newest(
                    placed(
                        s.skipped,
                        SkippedView { dh: s.dhr->0, n: s.n_recv, key: message_key(chain) },
                    ),
                ),
                recv_chain: Some(next_chain(chain)),
                n_recv: (s.n_recv + 1) as u32,
                ..s
            }
        }
    }

    /// With the receiving chain advanced to a counter. Nothing where there is no such chain yet, or
    /// it is past the counter already.
    pub open spec fn skipped_to(self, until: u32) -> Result<RatchetView, ErrorView> {
        if self.dhr is None || self.recv_chain is None || until <= self.n_recv {
            Ok(self)
        } else if until - self.n_recv > MAX_SKIP {
            Err(ErrorView::TooManySkipped)
        } else {
            Ok(self.skipping((until - self.n_recv) as nat))
        }
    }

    /// With the peer's new key adopted: a fresh receiving chain against it, then a fresh key of our
    /// own and a fresh sending chain.
    pub open spec fn turned(self, dhr: Seq<u8>, fresh: Seq<u8>) -> Result<RatchetView, ErrorView> {
        let dh = x25519_of(self.dhs_secret, dhr);
        let (root, recv) = root_step(self.root_key, dh);
        let again = x25519_of(fresh, dhr);
        let (last, send) = root_step(root, again);
        if dh == zeros32() || again == zeros32() {
            Err(ErrorView::NonContributoryDh)
        } else {
            Ok(
                RatchetView {
                    root_key: last,
                    dhs_secret: fresh,
                    dhs_public: x25519_public_of(fresh),
                    dhr: Some(dhr),
                    send_chain: Some(send),
                    recv_chain: Some(recv),
                    n_send: 0,
                    n_recv: 0,
                    prev_chain_len: self.n_send,
                    ..self
                },
            )
        }
    }

    /// At the place of a message in its chain: past what was not seen of the chain before it where
    /// the message begins a new one, and past what was not seen of its own.
    pub open spec fn readied(self, msg: MessageView, fresh: Seq<u8>) -> Result<
        RatchetView,
        ErrorView,
    > {
        if self.dhr == Some(msg.dh) {
            self.skipped_to(msg.n)
        } else {
            match self.skipped_to(msg.pn) {
                Err(e) => Err(e),
                Ok(s) => match s.turned(msg.dh, fresh) {
                    Err(e) => Err(e),
                    Ok(t) => t.skipped_to(msg.n),
                },
            }
        }
    }

    /// True when the keys that are held are no more than may be, and no two are for one message.
    pub open spec fn tidy(self) -> bool {
        &&& self.skipped.len() <= MAX_SKIPPED_KEYS
        &&& one_key_each(self.skipped)
    }

    /// True when the key of a message is held.
    pub open spec fn holds(self, msg: MessageView) -> bool {
        place_of(self.skipped, msg.dh, msg.n) < self.skipped.len()
    }

    /// True when a message brings a key of the peer that we have not turned to.
    pub open spec fn turns_on(self, msg: MessageView) -> bool {
        !self.holds(msg) && self.dhr != Some(msg.dh)
    }

    /// True when a message makes us come up with a fresh key: it brings a key of the peer that we
    /// have not turned to, the gap before it is not too long, and the key that we have shares a
    /// secret with the one that it brings.
    pub open spec fn needs_fresh(self, msg: MessageView) -> bool {
        &&& self.turns_on(msg)
        &&& self.skipped_to(msg.pn) is Ok
        &&& x25519_of(self.dhs_secret, msg.dh) != zeros32()
    }

    /// The key of a message and what is left once it is used, or why there is none.
    pub open spec fn keyed(self, msg: MessageView, fresh: Seq<u8>) -> Result<
        (Seq<u8>, RatchetView),
        ErrorView,
    > {
        let i = place_of(self.skipped, msg.dh, msg.n);
        if self.holds(msg) {
            Ok((self.skipped[i].key, RatchetView { skipped: self.skipped.remove(i), ..self }))
        } else {
            match self.readied(msg, fresh) {
                Err(e) => Err(e),
                Ok(s) => match s.recv_chain {
                    None => Err(ErrorView::NoChain),
                    Some(chain) => if s.n_recv == u32::MAX {
                        Err(ErrorView::CounterOverflow)
                    } else {
                        Ok(
                            (
                                message_key(chain),
                                RatchetView {
                                    recv_chain: Some(next_chain(chain)),
                                    n_recv: (s.n_recv + 1) as u32,
                                    ..s
                                },
                            ),
                        )
                    },
                },
            }
        }
    }

    /// What a message says, to one whose fresh key is this where it needs one.
    pub open spec fn decrypted(self, msg: MessageView, fresh: Seq<u8>) -> Result<
        Seq<u8>,
        ErrorView,
    > {
        match self.keyed(msg, fresh) {
            Err(e) => Err(e),
            Ok((key, _)) => opened(key, msg),
        }
    }

    /// After a message came. One that does not open changes nothing.
    pub open spec fn after_decrypt(self, msg: MessageView, fresh: Seq<u8>) -> RatchetView {
        if self.decrypted(msg, fresh) is Ok {
            match self.keyed(msg, fresh) {
                Ok((_, rest)) => rest,
                Err(_) => self,
            }
        } else {
            self
        }
    }
}

/// True when the owner of the public key comes to the secret that we share with it.
pub open spec fn mutual(secret: Seq<u8>, public: Seq<u8>) -> bool {
    forall|other: Seq<u8>|
        other.len() == 32 && public == #[trigger] x25519_public_of(other) ==> x25519_of(
            secret,
            public,
        ) == x25519_of(other, x25519_public_of(secret))
}

/// True when reading a message with `fresh` as our next ratchet key takes the one ratchet to the
/// other and gives `r`. The secrets that a new ratchet key of the peer gives are those that the peer
/// comes to.
pub open spec fn reads(
    before: RatchetView,
    after: RatchetView,
    msg: MessageView,
    fresh: Seq<u8>,
    r: Result<Vec<u8>, Error>,
) -> bool {
    &&& after == before.after_decrypt(msg, fresh)
    &&& match (before.decrypted(msg, fresh), r) {
        (Ok(plain), Ok(got)) => {
            &&& got@ == plain
            &&& before.turns_on(msg) ==> mutual(before.dhs_secret, msg.dh) && mutual(fresh, msg.dh)
        },
        (Err(e), Err(got)) => got@ == e,
        _ => false,
    }
}

/// True when one side's next message is the next that the other expects.
pub open spec fn in_step(sender: RatchetView, receiver: RatchetView) -> bool {
    &&& sender.send_chain is Some
    &&& receiver.recv_chain == sender.send_chain
    &&& receiver.dhr == Some(sender.dhs_public)
    &&& receiver.n_recv == sender.n_send
    &&& sender.n_send < u32::MAX
}

impl RatchetView {
    /// True when the sender's next message is the next that we expect: of the chain that we have
    /// come to, or of the one that we come to when we turn to the sender's key.
    pub open spec fn expects(self, sender: RatchetView, fresh: Seq<u8>) -> bool {
        ||| in_step(sender, self)
        ||| {
            &&& self.dhr != Some(sender.dhs_public)
            &&& self.recv_chain is None || sender.prev_chain_len <= self.n_recv
            &&& self.turned(sender.dhs_public, fresh) is Ok
            &&& in_step(sender, self.turned(sender.dhs_public, fresh)->Ok_0)
        }
    }
}

/// True when whoever expects the sender's next message, and does not hold a key for it already,
/// reads this plaintext from it.
pub open spec fn delivers(sender: RatchetView, msg: MessageView, plain: Seq<u8>) -> bool {
    forall|receiver: RatchetView, fresh: Seq<u8>|
        receiver.expects(sender, fresh) && !receiver.holds(msg) ==> #[trigger] receiver.decrypted(
            msg,
            fresh,
        ) == Ok::<Seq<u8>, ErrorView>(plain)
}

fn copy_secret(secret: &Secret) -> (r: Secret)
    ensures
        secret_bytes(r) == secret_bytes(*secret),
{
    seal_secret(open_secret(secret))
}

fn copy_chain(chain: &Option<Secret>) -> (r: Option<Secret>)
    ensures
        chain_bytes(r) == chain_bytes(*chain),
{
    match chain {
        Some(chain) => Some(copy_secret(chain)),
        None => None,
    }
}

fn copy_keys(held: &Vec<Skipped>) -> (r: Vec<Skipped>)
    ensures
        r.deep_view() == held.deep_view(),
{
    let ghost all = held.deep_view();
    let mut out: Vec<Skipped> = Vec::new();
    let mut i: usize = 0;
    assert(out.deep_view() =~= all.take(0));
    while i < held.len()
        invariant
            i <= held@.len() == all.len(),
            all == held.deep_view(),
            out.deep_view() == all.take(i as int),
        decreases held@.len() - i,
    {
        let one = Skipped { dh: held[i].dh, n: held[i].n, key: copy_secret(&held[i].key) };
        assert(one@ == all[i as int]);
        let ghost had = out.deep_view();
        out.push(one);
        assert(out.deep_view() =~= had.push(one@));
        i = i + 1;
        assert(out.deep_view() =~= all.take(i as int));
    }
    assert(all.take(all.len() as int) =~= all);
    out
}

proof fn lemma_skipping_keeps_key(ratchet: RatchetView, count: nat)
    ensures
        ratchet.skipping(count).dhs_secret == ratchet.dhs_secret,
    decreases count,
{
    if count > 0 {
        lemma_skipping_keeps_key(ratchet, (count - 1) as nat);
    }
}

impl Ratchet {
    /// Open a ratchet as the responder: derive a sending chain at once against the initiator's
    /// prekey, with no receiving chain yet.
    pub(crate) fn init_as_responder(
        root: &[u8; 32],
        ek_secret: &[u8; 32],
        ek_public: &[u8; 32],
        spk: &[u8; 32],
    ) -> (r: Result<Self, Error>)
        ensures
            match (RatchetView::responder(root@, ek_secret@, ek_public@, spk@), r) {
                (Ok(view), Ok(got)) => got@ == view,
                (Err(e), Err(got)) => got@ == e,
                _ => false,
            },
            mutual(ek_secret@, spk@),
    {
        let (dh, contributory) = x25519_shared(ek_secret, spk);
        if !contributory {
            return Err(Error::NonContributoryDh);
        }
        let (new_root, send) = kdf_root(root, &dh);
        let r = Ratchet {
            root_key: seal_secret(&new_root),
            dhs_secret: seal_secret(ek_secret),
            dhs_public: *ek_public,
            dhr: Some(*spk),
            send_chain: Some(seal_secret(&send)),
            recv_chain: None,
            n_send: 0,
            n_recv: 0,
            prev_chain_len: 0,
            skipped: Held::new(),
        };
        Ok(r)
    }

    /// Open a ratchet as the initiator: reuse the prekey as the first ratchet key, with no peer key
    /// and no chain yet. The first message that comes supplies the peer's key.
    pub(crate) fn init_as_initiator(
        root: &[u8; 32],
        spk_secret: &[u8; 32],
        spk_public: &[u8; 32],
    ) -> (r: Self)
        ensures
            r@ == RatchetView::initiator(root@, spk_secret@, spk_public@),
    {
        let r = Ratchet {
            root_key: seal_secret(root),
            dhs_secret: seal_secret(spk_secret),
            dhs_public: *spk_public,
            dhr: None,
            send_chain: None,
            recv_chain: None,
            n_send: 0,
            n_recv: 0,
            prev_chain_len: 0,
            skipped: Held::new(),
        };
        r
    }

    fn copy(&self) -> (r: Self)
        ensures
            r@ == self@,
    {
        let r = Ratchet {
            root_key: copy_secret(&self.root_key),
            dhs_secret: copy_secret(&self.dhs_secret),
            dhs_public: self.dhs_public,
            dhr: self.dhr,
            send_chain: copy_chain(&self.send_chain),
            recv_chain: copy_chain(&self.recv_chain),
            n_send: self.n_send,
            n_recv: self.n_recv,
            prev_chain_len: self.prev_chain_len,
            skipped: self.skipped.copy(),
        };
        assert(r@ =~= self@);
        r
    }

    /// Encrypt `plaintext`, advancing the sending chain by one step.
    ///
    /// Under the key that the chain had come to, the message opens to the plaintext; so whoever
    /// expects it, and does not hold a key for it already, reads the plaintext.
    pub fn encrypt(&mut self, plaintext: &[u8]) -> (r: Result<RatchetMessage, Error>)
        ensures
            old(self)@.tidy(),
            final(self)@ == old(self)@.after_encrypt(),
            match (old(self)@.encrypted(plaintext@), r) {
                (Ok(view), Ok(msg)) => {
                    &&& msg@ == view
                    &&& opened(message_key(old(self)@.send_chain->0), msg@) == Ok::<
                        Seq<u8>,
                        ErrorView,
                    >(plaintext@)
                    &&& msg@.ct.len() == padded(plaintext@).len() + TAG_LEN
                    &&& delivers(old(self)@, msg@, plaintext@)
                },
                (Err(e), Err(got)) => got@ == e,
                _ => false,
            },
    {
        proof {
            use_type_invariant(&self.skipped);
        }
        let ghost before = self@;
        let (key, next) = match &self.send_chain {
            Some(chain) => kdf_chain(open_secret(chain)),
            None => return Err(Error::NoChain),
        };
        self.send_chain = Some(seal_secret(&next));
        let dh = self.dhs_public;
        let pn: u32 = self.prev_chain_len;
        let n: u32 = self.n_send;
        if n == u32::MAX {
            return Err(Error::CounterOverflow);
        }
        self.n_send = n + 1;
        let aad = header_aad(&dh, pn, n);
        proof {
            law_unpad_padded(plaintext@);
        }
        match aead_encrypt(&key, &aad, plaintext) {
            Some(ct) => {
                let msg = RatchetMessage { dh, pn, n, ct };
                proof {
                    assert forall|receiver: RatchetView, fresh: Seq<u8>|
                        receiver.expects(before, fresh) && !receiver.holds(
                            msg@,
                        ) implies #[trigger] receiver.decrypted(msg@, fresh) == Ok::<
                        Seq<u8>,
                        ErrorView,
                    >(plaintext@) by {
                        law_conversation(before, receiver, plaintext@, msg@, fresh);
                    }
                }
                Ok(msg)
            },
            None => Err(Error::Aead),
        }
    }

    /// Advance the receiving chain up to (but not including) counter `until`, holding the key of
    /// each message that is skipped.
    fn skip_current_receiving_chain(&mut self, until: u32) -> (r: Result<(), Error>)
        ensures
            match (old(self)@.skipped_to(until), r) {
                (Ok(view), Ok(_)) => final(self)@ == view,
                (Err(e), Err(got)) => got@ == e,
                _ => false,
            },
    {
        let dhr = match self.dhr {
            Some(dhr) => dhr,
            None => return Ok(()),
        };
        if self.recv_chain.is_none() || until <= self.n_recv {
            return Ok(());
        }
        let span: u32 = until - self.n_recv;
        if span > MAX_SKIP {
            return Err(Error::TooManySkipped);
        }
        let ghost start = self@;
        let mut i: u32 = 0;
        while i < span
            invariant
                i <= span,
                span == until - start.n_recv,
                self.n_recv == start.n_recv + i,
                self.dhr == Some(dhr),
                self@ == start.skipping(i as nat),
                self.recv_chain is Some,
            decreases span - i,
        {
            let (key, next) = match &self.recv_chain {
                Some(chain) => kdf_chain(open_secret(chain)),
                None => return Ok(()),
            };
            self.skipped.keep(&dhr, self.n_recv, &key);
            self.recv_chain = Some(seal_secret(&next));
            self.n_recv = self.n_recv + 1;
            i = i + 1;
        }
        Ok(())
    }

    /// Adopt the peer's new ratchet key: derive a fresh receiving chain against it with the current
    /// key, then a fresh sending chain with the fresh one.
    fn dh_ratchet_receive(&mut self, new_dhr: &[u8; 32], fresh: &[u8; 32]) -> (r: Result<(), Error>)
        ensures
            match (old(self)@.turned(new_dhr@, fresh@), r) {
                (Ok(view), Ok(_)) => {
                    &&& final(self)@ == view
                    &&& mutual(old(self)@.dhs_secret, new_dhr@)
                    &&& mutual(fresh@, new_dhr@)
                },
                (Err(e), Err(got)) => got@ == e,
                _ => false,
            },
    {
        let ghost before = self@;
        let (dh, contributory) = x25519_shared(open_secret(&self.dhs_secret), new_dhr);
        if !contributory {
            return Err(Error::NonContributoryDh);
        }
        let (root, recv) = kdf_root(open_secret(&self.root_key), &dh);
        let (again, contributory) = x25519_shared(fresh, new_dhr);
        if !contributory {
            return Err(Error::NonContributoryDh);
        }
        let (last, send) = kdf_root(&root, &again);
        self.prev_chain_len = self.n_send;
        self.n_send = 0;
        self.n_recv = 0;
        self.dhr = Some(*new_dhr);
        self.recv_chain = Some(seal_secret(&recv));
        self.dhs_secret = seal_secret(fresh);
        self.dhs_public = x25519_public(fresh);
        self.root_key = seal_secret(&last);
        self.send_chain = Some(seal_secret(&send));
        Ok(())
    }

    fn peer_is(&self, dh: &[u8; 32]) -> (r: bool)
        ensures
            r == (self@.dhr == Some(dh@)),
    {
        match &self.dhr {
            Some(dhr) => same_bytes(dhr, dh),
            None => false,
        }
    }

    /// Go to the place of a message in its chain.
    fn ready(&mut self, msg: &RatchetMessage, fresh: &[u8; 32]) -> (r: Result<(), Error>)
        ensures
            match (old(self)@.readied(msg@, fresh@), r) {
                (Ok(view), Ok(_)) => {
                    &&& final(self)@ == view
                    &&& old(self)@.dhr != Some(msg@.dh) ==> mutual(old(self)@.dhs_secret, msg@.dh)
                        && mutual(fresh@, msg@.dh)
                },
                (Err(e), Err(got)) => got@ == e,
                _ => false,
            },
    {
        proof {
            lemma_skipping_keeps_key(self@, (msg.pn - self@.n_recv) as nat);
        }
        if !self.peer_is(&msg.dh) {
            if let Err(e) = self.skip_current_receiving_chain(msg.pn) {
                return Err(e);
            }
            if let Err(e) = self.dh_ratchet_receive(&msg.dh, fresh) {
                return Err(e);
            }
        }
        self.skip_current_receiving_chain(msg.n)
    }

    /// Take the key of a message, advancing to it where it is not held.
    fn take_key(&mut self, msg: &RatchetMessage, fresh: &[u8; 32]) -> (r: Result<[u8; 32], Error>)
        ensures
            match (old(self)@.keyed(msg@, fresh@), r) {
                (Ok((key, view)), Ok(got)) => {
                    &&& got@ == key
                    &&& final(self)@ == view
                    &&& old(self)@.turns_on(msg@) ==> mutual(old(self)@.dhs_secret, msg@.dh)
                        && mutual(fresh@, msg@.dh)
                },
                (Err(e), Err(got)) => got@ == e,
                _ => false,
            },
    {
        if let Some(i) = self.skipped.find(&msg.dh, msg.n) {
            return Ok(self.skipped.take(i));
        }
        if let Err(e) = self.ready(msg, fresh) {
            return Err(e);
        }
        let (key, next) = match &self.recv_chain {
            Some(chain) => kdf_chain(open_secret(chain)),
            None => return Err(Error::NoChain),
        };
        if self.n_recv == u32::MAX {
            return Err(Error::CounterOverflow);
        }
        self.recv_chain = Some(seal_secret(&next));
        self.n_recv = self.n_recv + 1;
        Ok(key)
    }

    /// Our next ratchet key, where a message calls for one: what the source fills in, asked once.
    /// Elsewhere the source is not asked.
    pub(crate) fn fresh_for<R: RandomSource>(&self, msg: &RatchetMessage, rng: &mut R) -> (r: [u8; 32])
        ensures
            self@.needs_fresh(msg@) ==> exists|source: &mut R, dest: &mut [u8]|
                {
                    &&& #[trigger] call_ensures(R::fill_bytes, (source, dest), ())
                    &&& *source == *old(rng)
                    &&& *final(source) == *final(rng)
                    &&& dest@ == zeros32()
                    &&& final(dest)@ == r@
                },
            !self@.needs_fresh(msg@) ==> *final(rng) == *old(rng),
    {
        if self.turns(msg) {
            random_array(rng)
        } else {
            [0u8; 32]
        }
    }

    /// Decrypt `msg`, with `fresh` as our next ratchet key where the message brings a new one of
    /// the peer.
    ///
    /// Everything happens on a copy that is only kept once the message opened, so that a forged
    /// frame with a plausible header cannot burn a held key or move the receiving chain.
    ///
    /// The secrets that a new ratchet key of the peer gives are those that the peer comes to.
    pub fn decrypt_with(&mut self, msg: &RatchetMessage, fresh: &[u8; 32]) -> (r: Result<
        Vec<u8>,
        Error,
    >)
        ensures
            old(self)@.tidy(),
            final(self)@.tidy(),
            reads(old(self)@, final(self)@, msg@, fresh@, r),
    {
        proof {
            use_type_invariant(&self.skipped);
        }
        let mut trial = self.copy();
        let key = match trial.take_key(msg, fresh) {
            Ok(key) => key,
            Err(e) => return Err(e),
        };
        match decrypt_with_key(&key, msg) {
            Ok(plain) => {
                *self = trial;
                proof {
                    use_type_invariant(&self.skipped);
                }
                Ok(plain)
            },
            Err(e) => Err(e),
        }
    }

    /// True when a message brings a new ratchet key of the peer that we would answer with a fresh
    /// one of our own.
    fn turns(&self, msg: &RatchetMessage) -> (r: bool)
        ensures
            r == self@.needs_fresh(msg@),
    {
        if self.skipped.find(&msg.dh, msg.n).is_some() || self.peer_is(&msg.dh) {
            return false;
        }
        let mut trial = self.copy();
        trial.skip_current_receiving_chain(msg.pn).is_ok() && x25519_shared(
            open_secret(&self.dhs_secret),
            &msg.dh,
        ).1
    }

    /// Decrypt `msg`, drawing a fresh ratchet key where it brings a new one of the peer: the key is
    /// what the source fills in, asked once. Where the message calls for no key the source is not
    /// asked, and the outcome is the same for every key.
    pub fn decrypt<R: RandomSource>(&mut self, msg: &RatchetMessage, rng: &mut R) -> (r: Result<
        Vec<u8>,
        Error,
    >)
        ensures
            old(self)@.tidy(),
            final(self)@.tidy(),
            old(self)@.needs_fresh(msg@) ==> exists|source: &mut R, dest: &mut [u8]|
                {
                    &&& #[trigger] call_ensures(R::fill_bytes, (source, dest), ())
                    &&& *source == *old(rng)
                    &&& *final(source) == *final(rng)
                    &&& dest@ == zeros32()
                    &&& final(dest)@.len() == 32
                    &&& reads(old(self)@, final(self)@, msg@, final(dest)@, r)
                },
            !old(self)@.needs_fresh(msg@) ==> *final(rng) == *old(rng) && (forall|fresh: Seq<u8>|
                fresh.len() == 32 ==> #[trigger] reads(
                    old(self)@,
                    final(self)@,
                    msg@,
                    fresh,
                    r,
                )),
    {
        let ghost before = self@;
        let fresh = self.fresh_for(msg, rng);
        let r = self.decrypt_with(msg, &fresh);
        proof {
            if !before.needs_fresh(msg@) {
                assert forall|other: Seq<u8>| other.len() == 32 implies #[trigger] reads(
                    before,
                    self@,
                    msg@,
                    other,
                    r,
                ) by {
                    lemma_fresh_is_unused(before, msg@, fresh@, other);
                }
            }
        }
        r
    }
}

/// A message that calls for no fresh key is read in the same way whatever key there is.
pub proof fn lemma_fresh_is_unused(
    ratchet: RatchetView,
    msg: MessageView,
    fresh: Seq<u8>,
    other: Seq<u8>,
)
    requires
        !ratchet.needs_fresh(msg),
    ensures
        ratchet.keyed(msg, fresh) == ratchet.keyed(msg, other),
        ratchet.decrypted(msg, fresh) == ratchet.decrypted(msg, other),
        ratchet.after_decrypt(msg, fresh) == ratchet.after_decrypt(msg, other),
        ratchet.turns_on(msg) ==> ratchet.decrypted(msg, fresh) is Err,
{
    if msg.pn > ratchet.n_recv {
        lemma_skipping_keeps_key(ratchet, (msg.pn - ratchet.n_recv) as nat);
    }
}

/// A forged or damaged message changes nothing, whatever its header claims: no held key is burnt
/// and no chain moves.
pub proof fn law_failed_decrypt_changes_nothing(
    ratchet: RatchetView,
    msg: MessageView,
    fresh: Seq<u8>,
)
    requires
        ratchet.decrypted(msg, fresh) is Err,
    ensures
        ratchet.after_decrypt(msg, fresh) == ratchet,
{
}

/// A forged message costs nothing: after one that does not open, every message that is outstanding
/// opens as it would have, and leaves what it would have left.
pub proof fn law_forgery_costs_nothing(
    ratchet: RatchetView,
    forged: MessageView,
    fresh: Seq<u8>,
    outstanding: MessageView,
    next: Seq<u8>,
)
    requires
        ratchet.decrypted(forged, fresh) is Err,
    ensures
        ({
            let after = ratchet.after_decrypt(forged, fresh);
            &&& after.decrypted(outstanding, next) == ratchet.decrypted(outstanding, next)
            &&& after.after_decrypt(outstanding, next) == ratchet.after_decrypt(outstanding, next)
        }),
{
}

/// A message that is forged or damaged on its way costs nothing: where the message itself is the
/// next that is expected, it still opens to its plaintext.
pub proof fn law_message_survives_forgery(
    sender: RatchetView,
    receiver: RatchetView,
    forged: MessageView,
    plain: Seq<u8>,
    msg: MessageView,
    other: Seq<u8>,
    fresh: Seq<u8>,
)
    requires
        receiver.decrypted(forged, other) is Err,
        receiver.expects(sender, fresh),
        delivers(sender, msg, plain),
        !receiver.holds(msg),
    ensures
        receiver.after_decrypt(forged, other).decrypted(msg, fresh) == Ok::<Seq<u8>, ErrorView>(
            plain,
        ),
{
    assert(receiver.decrypted(msg, fresh) == Ok::<Seq<u8>, ErrorView>(plain));
}

/// A message that was read is past, whether it was the next of its chain, came after a gap or came
/// late: no key is held for it any more, and where none was held before it, the chain that it
/// belongs to has gone beyond it. After that, a copy that does not open changes nothing. That a copy
/// does not open under a later key is the cipher's to say.
pub proof fn law_read_message_is_past(
    ratchet: RatchetView,
    msg: MessageView,
    fresh: Seq<u8>,
    again: Seq<u8>,
)
    requires
        ratchet.tidy(),
        ratchet.decrypted(msg, fresh) is Ok,
    ensures
        ({
            let after = ratchet.after_decrypt(msg, fresh);
            &&& !after.holds(msg)
            &&& !ratchet.holds(msg) ==> after.dhr == Some(msg.dh) && after.n_recv > msg.n
            &&& after.decrypted(msg, again) is Err ==> after.after_decrypt(msg, again) == after
        }),
{
    let after = ratchet.after_decrypt(msg, fresh);
    lemma_place(ratchet.skipped, msg.dh, msg.n);
    lemma_place(after.skipped, msg.dh, msg.n);
    if ratchet.holds(msg) {
        let i = place_of(ratchet.skipped, msg.dh, msg.n);
        let j = place_of(after.skipped, msg.dh, msg.n);
        if after.holds(msg) {
            let j0 = if j < i { j } else { j + 1 };
            assert(after.skipped[j] == ratchet.skipped[j0]);
            assert(false);
        }
    } else {
        let ready = ratchet.readied(msg, fresh)->Ok_0;
        if ratchet.dhr == Some(msg.dh) {
            lemma_skipped_to_keeps_out(ratchet, msg.n, msg.dh, msg.n);
        } else {
            let s = ratchet.skipped_to(msg.pn)->Ok_0;
            lemma_skipped_to_keeps_out(ratchet, msg.pn, msg.dh, msg.n);
            let t = s.turned(msg.dh, fresh)->Ok_0;
            lemma_skipped_to_keeps_out(t, msg.n, msg.dh, msg.n);
        }
        assert(after.skipped == ready.skipped);
    }
}

/// True when no key for this message is held.
pub open spec fn none_for(held: Seq<SkippedView>, dh: Seq<u8>, n: u32) -> bool {
    forall|i: int| 0 <= i < held.len() ==> (#[trigger] held[i]).dh != dh || held[i].n != n
}

/// Advancing a chain up to a message, or any way along another chain, holds no key for it.
proof fn lemma_skipped_to_keeps_out(ratchet: RatchetView, until: u32, dh: Seq<u8>, n: u32)
    requires
        none_for(ratchet.skipped, dh, n),
        ratchet.skipped_to(until) is Ok,
        ratchet.dhr == Some(dh) ==> until <= n,
    ensures
        ({
            let after = ratchet.skipped_to(until)->Ok_0;
            &&& none_for(after.skipped, dh, n)
            &&& after.dhr == ratchet.dhr
            &&& ratchet.dhr is Some && ratchet.recv_chain is Some ==> after.n_recv >= until
        }),
{
    if ratchet.dhr is Some && ratchet.recv_chain is Some && until > ratchet.n_recv {
        lemma_skipping_keeps_out(ratchet, (until - ratchet.n_recv) as nat, dh, n);
    }
}

proof fn lemma_skipping_keeps_out(ratchet: RatchetView, count: nat, dh: Seq<u8>, n: u32)
    requires
        none_for(ratchet.skipped, dh, n),
        ratchet.dhr is Some,
        ratchet.n_recv + count <= u32::MAX,
        ratchet.dhr == Some(dh) ==> ratchet.n_recv + count <= n,
    ensures
        none_for(ratchet.skipping(count).skipped, dh, n),
        ratchet.skipping(count).dhr == ratchet.dhr,
        ratchet.skipping(count).n_recv == ratchet.n_recv + count,
    decreases count,
{
    if count > 0 {
        lemma_skipping_keeps_out(ratchet, (count - 1) as nat, dh, n);
        let s = ratchet.skipping((count - 1) as nat);
        lemma_place(s.skipped, s.dhr->0, s.n_recv);
    }
}

/// No two of the keys that are held are for one message, and they are no more than may be: a ratchet
/// starts out holding none, and whatever it sends and whatever comes, that stays so.
pub proof fn law_ratchet_stays_tidy(
    ratchet: RatchetView,
    msg: MessageView,
    fresh: Seq<u8>,
    root: Seq<u8>,
    secret: Seq<u8>,
    public: Seq<u8>,
    peer: Seq<u8>,
)
    requires
        ratchet.tidy(),
    ensures
        ratchet.after_encrypt().tidy(),
        ratchet.after_decrypt(msg, fresh).tidy(),
        RatchetView::initiator(root, secret, public).tidy(),
        match RatchetView::responder(root, secret, public, peer) {
            Ok(opened) => opened.tidy(),
            Err(_) => true,
        },
{
    law_held_keys_are_bounded(ratchet, msg, fresh);
    lemma_place(ratchet.skipped, msg.dh, msg.n);
    if ratchet.holds(msg) {
        lemma_one_key_each_without(ratchet.skipped, place_of(ratchet.skipped, msg.dh, msg.n));
    } else {
        lemma_skips_one_key_each(ratchet, (msg.n - ratchet.n_recv) as nat);
        lemma_skips_one_key_each(ratchet, (msg.pn - ratchet.n_recv) as nat);
        if let Ok(s) = ratchet.skipped_to(msg.pn) {
            if let Ok(t) = s.turned(msg.dh, fresh) {
                lemma_skips_one_key_each(t, (msg.n - t.n_recv) as nat);
            }
        }
    }
}

proof fn lemma_skips_one_key_each(ratchet: RatchetView, count: nat)
    requires
        one_key_each(ratchet.skipped),
    ensures
        one_key_each(ratchet.skipping(count).skipped),
    decreases count,
{
    if count > 0 {
        lemma_skips_one_key_each(ratchet, (count - 1) as nat);
        let s = ratchet.skipping((count - 1) as nat);
        lemma_one_key_each_with(
            s.skipped,
            SkippedView { dh: s.dhr->0, n: s.n_recv, key: message_key(s.recv_chain->0) },
        );
    }
}

/// What one side encrypts, the other decrypts: where the one's next message is the next that the
/// other expects, it opens to its plaintext, and the two are in step after it.
pub proof fn law_conversation(
    sender: RatchetView,
    receiver: RatchetView,
    plain: Seq<u8>,
    msg: MessageView,
    fresh: Seq<u8>,
)
    requires
        receiver.expects(sender, fresh),
        sender.encrypted(plain) == Ok::<MessageView, ErrorView>(msg),
        opened(message_key(sender.send_chain->0), msg) == Ok::<Seq<u8>, ErrorView>(plain),
        !receiver.holds(msg),
    ensures
        receiver.decrypted(msg, fresh) == Ok::<Seq<u8>, ErrorView>(plain),
        sender.after_encrypt().n_send < u32::MAX ==> in_step(
            sender.after_encrypt(),
            receiver.after_decrypt(msg, fresh),
        ),
{
    if receiver.dhr == Some(msg.dh) {
        assert(receiver.readied(msg, fresh) == Ok::<RatchetView, ErrorView>(receiver));
    } else {
        assert(receiver.readied(msg, fresh) == receiver.turned(msg.dh, fresh));
    }
}

/// A reply is in step too: where one side turns to the other's key, the chain that it will send
/// on is the one that the other comes to when it turns in its turn, both having had one root.
/// The two shared secrets of a pair of keys are one secret.
pub proof fn law_turn_in_step(
    asker: RatchetView,
    replier: RatchetView,
    fresh: Seq<u8>,
    next: Seq<u8>,
)
    requires
        asker.dhs_public == x25519_public_of(asker.dhs_secret),
        replier.turned(asker.dhs_public, fresh) is Ok,
        asker.root_key == root_step(
            replier.root_key,
            x25519_of(replier.dhs_secret, asker.dhs_public),
        ).0,
        x25519_of(fresh, asker.dhs_public) == x25519_of(
            asker.dhs_secret,
            x25519_public_of(fresh),
        ),
        asker.turned(x25519_public_of(fresh), next) is Ok,
    ensures
        in_step(
            replier.turned(asker.dhs_public, fresh)->Ok_0,
            asker.turned(x25519_public_of(fresh), next)->Ok_0,
        ),
{
}

/// A chain this many messages on.
pub open spec fn chain_at(chain: Seq<u8>, n: nat) -> Seq<u8>
    decreases n,
{
    if n == 0 {
        chain
    } else {
        next_chain(chain_at(chain, (n - 1) as nat))
    }
}

/// True when no key for a message of this chain from a counter on is held.
pub open spec fn none_from(held: Seq<SkippedView>, dh: Seq<u8>, n: u32) -> bool {
    forall|i: int| 0 <= i < held.len() ==> (#[trigger] held[i]).dh != dh || held[i].n < n
}

/// Messages may come out of order: past a gap, the key of every message in it is held, so that each
/// still opens when it comes. This holds while the keys that are held do not exceed their bound.
pub proof fn law_skipped_keys_are_held(ratchet: RatchetView, count: nat, j: nat)
    requires
        ratchet.dhr is Some,
        ratchet.recv_chain is Some,
        ratchet.n_recv + count <= u32::MAX,
        ratchet.skipped.len() + count <= MAX_SKIPPED_KEYS,
        none_from(ratchet.skipped, ratchet.dhr->0, ratchet.n_recv),
        j < count,
    ensures
        ({
            let after = ratchet.skipping(count);
            let i = place_of(after.skipped, ratchet.dhr->0, (ratchet.n_recv + j) as u32);
            &&& i < after.skipped.len()
            &&& after.skipped[i].key == message_key(chain_at(ratchet.recv_chain->0, j))
        }),
{
    lemma_skipping(ratchet, count);
    let after = ratchet.skipping(count);
    let n = (ratchet.n_recv + j) as u32;
    let at = ratchet.skipped.len() + j;
    lemma_place(after.skipped, ratchet.dhr->0, n);
    let i = place_of(after.skipped, ratchet.dhr->0, n);
    assert(after.skipped[at as int].dh == ratchet.dhr->0 && after.skipped[at as int].n == n);
    assert(i <= at);
    if i < at {
        if i < ratchet.skipped.len() {
            assert(after.skipped[i] == ratchet.skipped[i]);
        } else {
            let k = i - ratchet.skipped.len();
            assert(after.skipped[ratchet.skipped.len() + k].n == ratchet.n_recv + k);
        }
        assert(false);
    }
}

/// What a gap adds to the keys that are held.
proof fn lemma_skipping(ratchet: RatchetView, count: nat)
    requires
        ratchet.dhr is Some,
        ratchet.recv_chain is Some,
        ratchet.n_recv + count <= u32::MAX,
        ratchet.skipped.len() + count <= MAX_SKIPPED_KEYS,
        none_from(ratchet.skipped, ratchet.dhr->0, ratchet.n_recv),
    ensures
        ({
            let after = ratchet.skipping(count);
            &&& after.dhr == ratchet.dhr
            &&& after.n_recv == ratchet.n_recv + count
            &&& after.recv_chain == Some(chain_at(ratchet.recv_chain->0, count))
            &&& after.skipped.len() == ratchet.skipped.len() + count
            &&& forall|i: int|
                0 <= i < ratchet.skipped.len() ==> (#[trigger] after.skipped[i])
                    == ratchet.skipped[i]
            &&& forall|k: int|
                0 <= k < count ==> (#[trigger] after.skipped[ratchet.skipped.len() + k]) == (
                SkippedView {
                    dh: ratchet.dhr->0,
                    n: (ratchet.n_recv + k) as u32,
                    key: message_key(chain_at(ratchet.recv_chain->0, k as nat)),
                })
        }),
    decreases count,
{
    if count > 0 {
        let less = (count - 1) as nat;
        lemma_skipping(ratchet, less);
        let s = ratchet.skipping(less);
        let dh = ratchet.dhr->0;
        lemma_place(s.skipped, dh, s.n_recv);
        let i = place_of(s.skipped, dh, s.n_recv);
        if i < s.skipped.len() {
            if i < ratchet.skipped.len() {
                assert(s.skipped[i] == ratchet.skipped[i]);
            } else {
                let k = i - ratchet.skipped.len();
                assert(s.skipped[ratchet.skipped.len() + k].n == ratchet.n_recv + k);
            }
            assert(false);
        }
        let after = ratchet.skipping(count);
        assert forall|k: int| 0 <= k < count implies (#[trigger] after.skipped[
            ratchet.skipped.len() + k
        ]) == (SkippedView {
            dh,
            n: (ratchet.n_recv + k) as u32,
            key: message_key(chain_at(ratchet.recv_chain->0, k as nat)),
        }) by {
            if k < less {
                assert(after.skipped[ratchet.skipped.len() + k] == s.skipped[
                    ratchet.skipped.len() + k
                ]);
            }
        }
    }
}

/// True when this key is held for this message.
pub open spec fn key_is_held(held: Seq<SkippedView>, dh: Seq<u8>, n: u32, key: Seq<u8>) -> bool {
    exists|i: int|
        0 <= i < held.len() && (#[trigger] held[i]).dh == dh && held[i].n == n && held[i].key == key
}

/// Putting a key in place holds it, and leaves the keys of other messages as they were.
proof fn lemma_placed(held: Seq<SkippedView>, one: SkippedView)
    requires
        held.len() < MAX_SKIPPED_KEYS,
        one_key_each(held),
    ensures
        key_is_held(newest(placed(held, one)), one.dh, one.n, one.key),
        newest(placed(held, one)).len() <= held.len() + 1,
        forall|dh: Seq<u8>, n: u32, key: Seq<u8>| #[trigger]
            key_is_held(held, dh, n, key) && !(dh == one.dh && n == one.n) ==> key_is_held(
                newest(placed(held, one)),
                dh,
                n,
                key,
            ),
{
    lemma_place(held, one.dh, one.n);
    let after = newest(placed(held, one));
    let at = place_of(held, one.dh, one.n);
    assert(after[at] == one);
    assert forall|dh: Seq<u8>, n: u32, key: Seq<u8>| #[trigger]
        key_is_held(held, dh, n, key) && !(dh == one.dh && n == one.n) implies key_is_held(
        after,
        dh,
        n,
        key,
    ) by {
        let i = choose|i: int|
            0 <= i < held.len() && (#[trigger] held[i]).dh == dh && held[i].n == n && held[i].key
                == key;
        assert(after[i] == held[i]);
    }
}

/// Advancing a chain holds the key of each message that is passed, and drops no other.
proof fn lemma_passed_keys_are_held(ratchet: RatchetView, count: nat)
    requires
        ratchet.dhr is Some,
        ratchet.recv_chain is Some,
        ratchet.n_recv + count <= u32::MAX,
        ratchet.skipped.len() + count <= MAX_SKIPPED_KEYS,
        one_key_each(ratchet.skipped),
    ensures
        ({
            let after = ratchet.skipping(count);
            &&& after.dhr == ratchet.dhr
            &&& after.n_recv == ratchet.n_recv + count
            &&& after.recv_chain == Some(chain_at(ratchet.recv_chain->0, count))
            &&& after.root_key == ratchet.root_key
            &&& after.dhs_secret == ratchet.dhs_secret
            &&& after.skipped.len() <= ratchet.skipped.len() + count
            &&& one_key_each(after.skipped)
            &&& forall|n: u32|
                ratchet.n_recv <= n < ratchet.n_recv + count ==> #[trigger] key_is_held(
                    after.skipped,
                    ratchet.dhr->0,
                    n,
                    message_key(chain_at(ratchet.recv_chain->0, (n - ratchet.n_recv) as nat)),
                )
            &&& forall|dh: Seq<u8>, n: u32, key: Seq<u8>| #[trigger]
                key_is_held(ratchet.skipped, dh, n, key) && !(dh == ratchet.dhr->0
                    && ratchet.n_recv <= n) ==> key_is_held(after.skipped, dh, n, key)
        }),
    decreases count,
{
    if count > 0 {
        let less = (count - 1) as nat;
        lemma_passed_keys_are_held(ratchet, less);
        let s = ratchet.skipping(less);
        let one = SkippedView { dh: s.dhr->0, n: s.n_recv, key: message_key(s.recv_chain->0) };
        lemma_placed(s.skipped, one);
        lemma_one_key_each_with(s.skipped, one);
        let after = ratchet.skipping(count);
        assert forall|n: u32| ratchet.n_recv <= n < ratchet.n_recv + count implies #[trigger]
            key_is_held(
            after.skipped,
            ratchet.dhr->0,
            n,
            message_key(chain_at(ratchet.recv_chain->0, (n - ratchet.n_recv) as nat)),
        ) by {
            if n < s.n_recv {
                assert(key_is_held(
                    s.skipped,
                    ratchet.dhr->0,
                    n,
                    message_key(chain_at(ratchet.recv_chain->0, (n - ratchet.n_recv) as nat)),
                ));
            }
        }
    }
}

/// Going on to a counter, in the words of [`key_is_held`].
proof fn lemma_passing_to(ratchet: RatchetView, until: u32)
    requires
        ratchet.skipped_to(until) is Ok,
        ratchet.skipped.len() + until <= MAX_SKIPPED_KEYS,
        one_key_each(ratchet.skipped),
    ensures
        ({
            let after = ratchet.skipped_to(until)->Ok_0;
            &&& after.dhr == ratchet.dhr
            &&& after.root_key == ratchet.root_key
            &&& after.dhs_secret == ratchet.dhs_secret
            &&& after.skipped.len() <= ratchet.skipped.len() + until
            &&& one_key_each(after.skipped)
            &&& ratchet.dhr is Some && ratchet.recv_chain is Some ==> forall|n: u32|
                ratchet.n_recv <= n < until ==> #[trigger] key_is_held(
                    after.skipped,
                    ratchet.dhr->0,
                    n,
                    message_key(chain_at(ratchet.recv_chain->0, (n - ratchet.n_recv) as nat)),
                )
            &&& forall|dh: Seq<u8>, n: u32, key: Seq<u8>| #[trigger]
                key_is_held(ratchet.skipped, dh, n, key) && !(ratchet.dhr == Some(dh)
                    && ratchet.n_recv <= n) ==> key_is_held(after.skipped, dh, n, key)
        }),
{
    if ratchet.dhr is Some && ratchet.recv_chain is Some && until > ratchet.n_recv {
        lemma_passed_keys_are_held(ratchet, (until - ratchet.n_recv) as nat);
    }
}

/// The receiving chain that a new key of the peer starts.
pub open spec fn chain_from(ratchet: RatchetView, dh: Seq<u8>) -> Seq<u8> {
    hkdf_of(
        ratchet.root_key,
        x25519_of(ratchet.dhs_secret, dh),
        encode_utf8("obby.world/e2ee root"@),
        64,
    ).subrange(32, 64)
}

/// Messages may come out of order, within a chain and across a turn to a new ratchet key. Once a
/// message was read, the key of every message that went before it and has not come is held, as long
/// as there is room: in the chain that the message belongs to, and, where the message began a new
/// chain, in the one before it up to the length that the message gives it. What was held before stays
/// held.
pub proof fn law_nothing_unread_is_lost(
    ratchet: RatchetView,
    msg: MessageView,
    fresh: Seq<u8>,
    n: u32,
    dh: Seq<u8>,
    key: Seq<u8>,
)
    requires
        ratchet.tidy(),
        ratchet.decrypted(msg, fresh) is Ok,
        ratchet.skipped.len() + msg.pn + msg.n <= MAX_SKIPPED_KEYS,
    ensures
        ({
            let after = ratchet.after_decrypt(msg, fresh);
            &&& !ratchet.holds(msg) && ratchet.dhr == Some(msg.dh) && ratchet.recv_chain is Some
                && ratchet.n_recv <= n < msg.n ==> key_is_held(
                after.skipped,
                msg.dh,
                n,
                message_key(chain_at(ratchet.recv_chain->0, (n - ratchet.n_recv) as nat)),
            )
            &&& !ratchet.holds(msg) && ratchet.dhr is Some && ratchet.dhr != Some(msg.dh)
                && ratchet.recv_chain is Some && ratchet.n_recv <= n < msg.pn ==> key_is_held(
                after.skipped,
                ratchet.dhr->0,
                n,
                message_key(chain_at(ratchet.recv_chain->0, (n - ratchet.n_recv) as nat)),
            )
            &&& !ratchet.holds(msg) && ratchet.dhr != Some(msg.dh) && n < msg.n ==> key_is_held(
                after.skipped,
                msg.dh,
                n,
                message_key(chain_at(chain_from(ratchet, msg.dh), n as nat)),
            )
            &&& key_is_held(ratchet.skipped, dh, n, key) && !(dh == msg.dh && (n == msg.n
                || ratchet.dhr != Some(dh) || ratchet.n_recv <= n)) && !(ratchet.dhr == Some(dh)
                && ratchet.n_recv <= n) ==> key_is_held(after.skipped, dh, n, key)
        }),
{
    let after = ratchet.after_decrypt(msg, fresh);
    lemma_place(ratchet.skipped, msg.dh, msg.n);
    if ratchet.holds(msg) {
        let at = place_of(ratchet.skipped, msg.dh, msg.n);
        if key_is_held(ratchet.skipped, dh, n, key) && !(dh == msg.dh && n == msg.n) {
            let i = choose|i: int|
                0 <= i < ratchet.skipped.len() && (#[trigger] ratchet.skipped[i]).dh == dh
                    && ratchet.skipped[i].n == n && ratchet.skipped[i].key == key;
            assert(i != at);
            assert(after.skipped[if i < at { i } else { i - 1 }] == ratchet.skipped[i]);
        }
    } else if ratchet.dhr == Some(msg.dh) {
        lemma_passing_to(ratchet, msg.n);
    } else {
        lemma_passing_to(ratchet, msg.pn);
        let s = ratchet.skipped_to(msg.pn)->Ok_0;
        let t = s.turned(msg.dh, fresh)->Ok_0;
        lemma_passing_to(t, msg.n);
        assert(t.recv_chain == Some(chain_from(ratchet, msg.dh)));
        if n < msg.n {
            assert((n - t.n_recv) as nat == n as nat);
            assert(key_is_held(
                after.skipped,
                msg.dh,
                n,
                message_key(chain_at(t.recv_chain->0, (n - t.n_recv) as nat)),
            ));
        }
        if ratchet.dhr is Some && ratchet.recv_chain is Some && ratchet.n_recv <= n < msg.pn {
            assert(key_is_held(
                s.skipped,
                ratchet.dhr->0,
                n,
                message_key(chain_at(ratchet.recv_chain->0, (n - ratchet.n_recv) as nat)),
            ));
        }
    }
}

/// A message of the chain before, which was on its way when the peer turned to a new ratchet key,
/// still opens to its plaintext when it comes after the first message of the new chain.
pub proof fn law_late_message_opens_after_a_turn(
    ratchet: RatchetView,
    msg: MessageView,
    fresh: Seq<u8>,
    sender: RatchetView,
    plain: Seq<u8>,
    late: MessageView,
    again: Seq<u8>,
)
    requires
        ratchet.tidy(),
        ratchet.decrypted(msg, fresh) is Ok,
        ratchet.skipped.len() + msg.pn + msg.n <= MAX_SKIPPED_KEYS,
        !ratchet.holds(msg),
        ratchet.dhr == Some(sender.dhs_public),
        sender.dhs_public != msg.dh,
        ratchet.recv_chain is Some,
        ratchet.n_recv <= sender.n_send < msg.pn,
        sender.send_chain == Some(
            chain_at(ratchet.recv_chain->0, (sender.n_send - ratchet.n_recv) as nat),
        ),
        sender.encrypted(plain) == Ok::<MessageView, ErrorView>(late),
        delivers(sender, late, plain),
    ensures
        ratchet.after_decrypt(msg, fresh).decrypted(late, again) == Ok::<Seq<u8>, ErrorView>(plain),
{
    let after = ratchet.after_decrypt(msg, fresh);
    law_nothing_unread_is_lost(ratchet, msg, fresh, late.n, msg.dh, fresh);
    law_ratchet_stays_tidy(ratchet, msg, fresh, fresh, fresh, fresh, fresh);
    let key = message_key(sender.send_chain->0);
    assert(key_is_held(after.skipped, late.dh, late.n, key));
    lemma_place(after.skipped, late.dh, late.n);
    let i = choose|i: int|
        0 <= i < after.skipped.len() && (#[trigger] after.skipped[i]).dh == late.dh
            && after.skipped[i].n == late.n && after.skipped[i].key == key;
    let at = place_of(after.skipped, late.dh, late.n);
    assert(at <= i);
    assert(at == i);
    let waiting = RatchetView {
        root_key: fresh,
        dhs_secret: fresh,
        dhs_public: fresh,
        dhr: Some(sender.dhs_public),
        send_chain: None,
        recv_chain: sender.send_chain,
        n_send: 0,
        n_recv: sender.n_send,
        prev_chain_len: 0,
        skipped: Seq::empty(),
    };
    assert(waiting.expects(sender, fresh));
    assert(!waiting.holds(late));
    assert(waiting.decrypted(late, fresh) == Ok::<Seq<u8>, ErrorView>(plain));
    assert(waiting.readied(late, fresh) == Ok::<RatchetView, ErrorView>(waiting));
}

/// However a peer numbers its messages, no more keys are held than may be.
pub proof fn law_held_keys_are_bounded(ratchet: RatchetView, msg: MessageView, fresh: Seq<u8>)
    requires
        ratchet.skipped.len() <= MAX_SKIPPED_KEYS,
    ensures
        ratchet.after_decrypt(msg, fresh).skipped.len() <= MAX_SKIPPED_KEYS,
{
    lemma_place(ratchet.skipped, msg.dh, msg.n);
    lemma_skips_bounded(ratchet, (msg.n - ratchet.n_recv) as nat);
    lemma_skips_bounded(ratchet, (msg.pn - ratchet.n_recv) as nat);
    if let Ok(s) = ratchet.skipped_to(msg.pn) {
        if let Ok(t) = s.turned(msg.dh, fresh) {
            lemma_skips_bounded(t, (msg.n - t.n_recv) as nat);
        }
    }
}

proof fn lemma_skips_bounded(ratchet: RatchetView, count: nat)
    requires
        ratchet.skipped.len() <= MAX_SKIPPED_KEYS,
    ensures
        ratchet.skipping(count).skipped.len() <= MAX_SKIPPED_KEYS,
    decreases count,
{
    if count > 0 {
        lemma_skips_bounded(ratchet, (count - 1) as nat);
    }
}

/// A gap of more than [`MAX_SKIP`] messages is refused outright.
pub proof fn law_long_gap_is_refused(ratchet: RatchetView, msg: MessageView, fresh: Seq<u8>)
    requires
        ratchet.dhr == Some(msg.dh),
        ratchet.recv_chain is Some,
        msg.n - ratchet.n_recv > MAX_SKIP,
        !ratchet.holds(msg),
    ensures
        ratchet.decrypted(msg, fresh) == Err::<Seq<u8>, ErrorView>(ErrorView::TooManySkipped),
{
}

/// The length of a ciphertext tells only how many blocks the plaintext takes: two plaintexts that
/// take as many give ciphertexts of the same length.
pub proof fn law_length_hides_in_a_bucket(a: Seq<u8>, b: Seq<u8>)
    requires
        a.len() / PAD_BLOCK as nat == b.len() / PAD_BLOCK as nat,
    ensures
        padded(a).len() + TAG_LEN == padded(b).len() + TAG_LEN,
{
    law_padded_length(a);
    law_padded_length(b);
}

} // verus!

//! Authenticated encryption envelope: XChaCha20-Poly1305 with a 24-byte
//! nonce and a 16-byte tag, a zeroizing key holder, and the deterministic
//! per-chunk nonce schedule of the streaming profile.

use vstd::prelude::*;

use crate::bytes::{u64_le_byte, u64_le_bytes, lemma_u64_le_bytes_injective};
use crate::errors::S3pError;
use crate::hashes::{sha256, sha256_of};
use crate::rng::os_random_bytes;

use chacha20poly1305::aead::Aead;
use chacha20poly1305::KeyInit;

verus! {

/// What `XChaCha20Poly1305::encrypt` returns for a key, nonce, associated
/// data and plaintext: a function of its arguments alone.
pub uninterp spec fn xchacha_seal(key: Seq<u8>, nonce: Seq<u8>, aad: Seq<u8>, pt: Seq<u8>) -> Seq<
    u8,
>;

/// Holder of raw key bytes, wrapped in the zeroize crate's `Zeroizing`
/// container so they are overwritten when the holder is dropped. Verus
/// refuses the container's own declaration, so the holder is opaque and its
/// contents carry a name.
#[verifier::external_body]
pub struct KeyMaterial {
    inner: zeroize::Zeroizing<Vec<u8>>,
}

/// The bytes a key holder protects.
pub uninterp spec fn key_material_bytes(k: &KeyMaterial) -> Seq<u8>;

/// Relies on `zeroize::Zeroizing::new`: wraps the value unchanged.
#[verifier::external_body]
fn key_material_wrap(v: Vec<u8>) -> (r: KeyMaterial)
    ensures
        key_material_bytes(&r) == v@,
{
    KeyMaterial { inner: zeroize::Zeroizing::new(v) }
}

/// Relies on `zeroize::Zeroizing`'s deref: exposes the held value unchanged.
#[verifier::external_body]
fn key_material_read<'a>(k: &'a KeyMaterial) -> (r: &'a Vec<u8>)
    ensures
        r@ == key_material_bytes(k),
{
    &*k.inner
}

/// Relies on `zeroize::Zeroizing`'s `Clone`: the copy holds the same bytes.
#[verifier::external_body]
fn key_material_clone(k: &KeyMaterial) -> (r: KeyMaterial)
    ensures
        key_material_bytes(&r) == key_material_bytes(k),
{
    KeyMaterial { inner: k.inner.clone() }
}

/// Relies on `chacha20poly1305::XChaCha20Poly1305::encrypt`: for a 32-byte
/// key, a 24-byte nonce and a plaintext below the cipher's block-count cap
/// it returns the ciphertext with the 16-byte tag appended, a value
/// determined by the arguments alone.
#[verifier::external_body]
fn aead_seal_raw(key: &Vec<u8>, nonce: &Vec<u8>, aad: &Vec<u8>, pt: &Vec<u8>) -> (r: Result<
    Vec<u8>,
    (),
>)
    requires
        key@.len() == 32,
        nonce@.len() == 24,
        pt@.len() / 64 < 4294967295,
    ensures
        r is Ok,
        r matches Ok(ct) ==> ct@ == xchacha_seal(key@, nonce@, aad@, pt@) && ct@.len() == pt@.len()
            + 16,
{
    let cipher = chacha20poly1305::XChaCha20Poly1305::new(
        chacha20poly1305::Key::from_slice(key.as_slice()),
    );
    let payload = chacha20poly1305::aead::Payload { msg: pt.as_slice(), aad: aad.as_slice() };
    cipher.encrypt(chacha20poly1305::XNonce::from_slice(nonce.as_slice()), payload).map_err(
        |_| (),
    )
}

/// Relies on `chacha20poly1305::XChaCha20Poly1305::decrypt`: it succeeds
/// exactly on the outputs of `encrypt` under the same key, nonce and
/// associated data, and then returns the plaintext that was sealed.
#[verifier::external_body]
fn aead_open_raw(key: &Vec<u8>, nonce: &Vec<u8>, aad: &Vec<u8>, ct: &Vec<u8>) -> (r: Result<
    Vec<u8>,
    (),
>)
    requires
        key@.len() == 32,
        nonce@.len() == 24,
    ensures
        r matches Ok(pt) ==> ct@ == xchacha_seal(key@, nonce@, aad@, pt@) && pt@.len() + 16
            == ct@.len(),
        r matches Ok(v) ==> forall|pt: Seq<u8>|
            pt.len() / 64 < 4294967295 && ct@ == xchacha_seal(key@, nonce@, aad@, pt) ==> v@ == pt,
        r is Err ==> forall|pt: Seq<u8>|
            pt.len() / 64 < 4294967295 ==> ct@ != xchacha_seal(key@, nonce@, aad@, pt),
{
    let cipher = chacha20poly1305::XChaCha20Poly1305::new(
        chacha20poly1305::Key::from_slice(key.as_slice()),
    );
    let payload = chacha20poly1305::aead::Payload { msg: ct.as_slice(), aad: aad.as_slice() };
    cipher.decrypt(chacha20poly1305::XNonce::from_slice(nonce.as_slice()), payload).map_err(
        |_| (),
    )
}

/// 192-bit nonce used for XChaCha20.
#[derive(Debug)]
pub struct Nonce {
    inner: Vec<u8>,
}

impl View for Nonce {
    type V = Seq<u8>;

    closed spec fn view(&self) -> Seq<u8> {
        self.inner@
    }
}

impl Clone for Nonce {
    fn clone(&self) -> (r: Self)
        ensures
            r@ == self@,
    {
        Nonce { inner: clone_bytes(&self.inner) }
    }
}

impl Nonce {
    /// A nonce is well formed when it holds exactly 24 bytes.
    pub open spec fn wf(&self) -> bool {
        self@.len() == 24
    }

    /// Generate a random nonce suitable for a single use with XChaCha20.
    pub fn random() -> (r: Self)
        ensures
            r.wf(),
    {
        Nonce { inner: os_random_bytes(24) }
    }

    /// Construct a nonce from raw bytes; rejects any length but 24.
    pub fn from_slice(bytes: &Vec<u8>) -> (r: Result<Self, S3pError>)
        ensures
            r is Ok <==> bytes@.len() == 24,
            r matches Ok(n) ==> n@ == bytes@ && n.wf(),
            r matches Err(e) ==> e is InvalidNonce,
    {
        if bytes.len() != 24 {
            return Err(S3pError::InvalidNonce);
        }
        Ok(Nonce { inner: clone_bytes(bytes) })
    }

    /// Borrow the inner bytes.
    pub fn as_bytes(&self) -> (r: &Vec<u8>)
        ensures
            r@ == self@,
    {
        &self.inner
    }
}

/// Copy a byte vector.
pub fn clone_bytes(v: &Vec<u8>) -> (r: Vec<u8>)
    ensures
        r@ == v@,
{
    let mut out: Vec<u8> = Vec::new();
    let mut i: usize = 0;
    while i < v.len()
        invariant
            i <= v@.len(),
            out@ == v@.take(i as int),
        decreases v@.len() - i,
    {
        out.push(v[i]);
        assert(out@ =~= v@.take(i as int + 1));
        i += 1;
    }
    assert(v@.take(v@.len() as int) =~= v@);
    out
}

/// Wrapper around an XChaCha20-Poly1305 key that zeroises memory on drop.
pub struct SymmetricKey {
    inner: KeyMaterial,
}

impl Clone for SymmetricKey {
    fn clone(&self) -> (r: Self)
        ensures
            r.key_bytes() == self.key_bytes(),
    {
        SymmetricKey { inner: key_material_clone(&self.inner) }
    }
}

impl SymmetricKey {
    /// The raw key bytes this holder protects.
    pub closed spec fn key_bytes(&self) -> Seq<u8> {
        key_material_bytes(&self.inner)
    }

    /// A key is well formed when it holds exactly 32 bytes.
    pub open spec fn wf(&self) -> bool {
        self.key_bytes().len() == 32
    }

    /// Generate a fresh random key.
    pub fn generate() -> (r: Self)
        ensures
            r.wf(),
    {
        SymmetricKey { inner: key_material_wrap(os_random_bytes(32)) }
    }

    /// Construct a key from raw bytes.
    pub fn from_bytes(bytes: Vec<u8>) -> (r: Self)
        requires
            bytes@.len() == 32,
        ensures
            r.key_bytes() == bytes@,
            r.wf(),
    {
        SymmetricKey { inner: key_material_wrap(bytes) }
    }

    /// Borrow the raw key material.
    pub fn as_bytes(&self) -> (r: &Vec<u8>)
        ensures
            r@ == self.key_bytes(),
    {
        key_material_read(&self.inner)
    }

    /// Encrypt `plaintext` using the provided `nonce` and `aad`.
    pub fn seal(&self, nonce: &Nonce, plaintext: &Vec<u8>, aad: &Vec<u8>) -> (r: Result<
        Vec<u8>,
        S3pError,
    >)
        requires
            self.wf(),
            nonce.wf(),
            plaintext@.len() / 64 < 4294967295,
        ensures
            r matches Ok(ct) && ct@ == xchacha_seal(self.key_bytes(), nonce@, aad@, plaintext@)
                && ct@.len() == plaintext@.len() + 16,
    {
        match aead_seal_raw(key_material_read(&self.inner), &nonce.inner, aad, plaintext) {
            Ok(ct) => Ok(ct),
            Err(_) => Err(S3pError::Encryption("unable to seal payload")),
        }
    }

    /// Decrypt `ciphertext` produced by `seal` under the same key, nonce and
    /// associated data; any other input is rejected.
    pub fn open(&self, nonce: &Nonce, ciphertext: &Vec<u8>, aad: &Vec<u8>) -> (r: Result<
        Vec<u8>,
        S3pError,
    >)
        requires
            self.wf(),
            nonce.wf(),
        ensures
            r matches Ok(pt) ==> ciphertext@ == xchacha_seal(self.key_bytes(), nonce@, aad@, pt@)
                && pt@.len() + 16 == ciphertext@.len(),
            forall|pt: Seq<u8>|
                pt.len() / 64 < 4294967295 && ciphertext@ == xchacha_seal(
                    self.key_bytes(),
                    nonce@,
                    aad@,
                    pt,
                ) ==> (r matches Ok(v) && v@ == pt),
            r matches Err(e) ==> e is Encryption,
    {
        match aead_open_raw(key_material_read(&self.inner), &nonce.inner, aad, ciphertext) {
            Ok(pt) => Ok(pt),
            Err(_) => Err(S3pError::Encryption("unable to open payload")),
        }
    }

    /// Convenience helper that returns the ciphertext alongside the nonce.
    pub fn seal_random_nonce(&self, plaintext: &Vec<u8>, aad: &Vec<u8>) -> (r: Result<
        EncryptedMessage,
        S3pError,
    >)
        requires
            self.wf(),
            plaintext@.len() / 64 < 4294967295,
        ensures
            r matches Ok(m) && m.nonce@.len() == 24 && m.ciphertext@ == xchacha_seal(
                self.key_bytes(),
                m.nonce@,
                aad@,
                plaintext@,
            ) && m.ciphertext@.len() == plaintext@.len() + 16,
    {
        let nonce = Nonce::random();
        match self.seal(&nonce, plaintext, aad) {
            Ok(ciphertext) => Ok(EncryptedMessage { nonce: nonce.inner, ciphertext }),
            Err(e) => Err(e),
        }
    }
}

/// Serializable envelope returned by `SymmetricKey::seal_random_nonce`.
#[derive(Clone, Debug)]
pub struct EncryptedMessage {
    pub nonce: Vec<u8>,
    pub ciphertext: Vec<u8>,
}

impl EncryptedMessage {
    /// Decrypt the envelope with the provided key and associated data.
    pub fn open(&self, key: &SymmetricKey, aad: &Vec<u8>) -> (r: Result<Vec<u8>, S3pError>)
        requires
            key.wf(),
            self.nonce@.len() == 24,
        ensures
            r matches Ok(pt) ==> self.ciphertext@ == xchacha_seal(
                key.key_bytes(),
                self.nonce@,
                aad@,
                pt@,
            ),
            forall|pt: Seq<u8>|
                pt.len() / 64 < 4294967295 && self.ciphertext@ == xchacha_seal(
                    key.key_bytes(),
                    self.nonce@,
                    aad@,
                    pt,
                ) ==> (r matches Ok(v) && v@ == pt),
    {
        let nonce = Nonce { inner: clone_bytes(&self.nonce) };
        let r = key.open(&nonce, &self.ciphertext, aad);
        proof {
            assert forall|pt: Seq<u8>|
                pt.len() / 64 < 4294967295 && self.ciphertext@ == xchacha_seal(
                    key.key_bytes(),
                    self.nonce@,
                    aad@,
                    pt,
                ) implies (r matches Ok(v) && v@ == pt) by {
                assert(self.ciphertext@ == xchacha_seal(key.key_bytes(), nonce@, aad@, pt));
            }
        }
        r
    }
}

/// The symmetric key the fixed schedule derives from input key material and
/// a salt: the SHA-256 digest of the salt followed by the IKM.
pub open spec fn ks_key_of(ikm: Seq<u8>, salt: Seq<u8>) -> Seq<u8> {
    sha256_of(salt + ikm)
}

/// Key schedule: derives the artifact key from (IKM, salt) and performs the
/// AEAD operations of the packaging profiles with it.
#[derive(Clone)]
pub struct KeySchedule {
    key: SymmetricKey,
}

impl KeySchedule {
    /// The derived key bytes.
    pub closed spec fn key_bytes(&self) -> Seq<u8> {
        self.key.key_bytes()
    }

    /// Well-formed once derived: the key holds 32 bytes.
    pub open spec fn wf(&self) -> bool {
        self.key_bytes().len() == 32
    }

    /// Derive the artifact key from input key material and a salt by the
    /// fixed schedule.
    pub fn derive(ikm: &Vec<u8>, salt: &Vec<u8>) -> (r: Result<KeySchedule, S3pError>)
        ensures
            r matches Ok(ks) && ks.key_bytes() == ks_key_of(ikm@, salt@) && ks.wf(),
    {
        let mut material = clone_bytes(salt);
        let mut ikm_copy = clone_bytes(ikm);
        material.append(&mut ikm_copy);
        assert(material@ =~= salt@ + ikm@);
        let digest = sha256(&material);
        Ok(KeySchedule { key: SymmetricKey::from_bytes(digest) })
    }

    /// Seal a whole payload under a fresh random nonce.
    pub fn seal(&self, aad: &Vec<u8>, plaintext: &Vec<u8>) -> (r: Result<
        (Vec<u8>, Nonce),
        S3pError,
    >)
        requires
            self.wf(),
            plaintext@.len() / 64 < 4294967295,
        ensures
            r matches Ok(p) && p.1.wf() && p.0@ == xchacha_seal(
                self.key_bytes(),
                p.1@,
                aad@,
                plaintext@,
            ) && p.0@.len() == plaintext@.len() + 16,
    {
        let nonce = Nonce::random();
        match self.key.seal(&nonce, plaintext, aad) {
            Ok(ct) => Ok((ct, nonce)),
            Err(e) => Err(e),
        }
    }

    /// Seal one chunk under a caller-chosen nonce.
    pub fn seal_with_nonce(&self, aad: &Vec<u8>, nonce: &Nonce, plaintext: &Vec<u8>) -> (r: Result<
        Vec<u8>,
        S3pError,
    >)
        requires
            self.wf(),
            nonce.wf(),
            plaintext@.len() / 64 < 4294967295,
        ensures
            r matches Ok(ct) && ct@ == xchacha_seal(self.key_bytes(), nonce@, aad@, plaintext@)
                && ct@.len() == plaintext@.len() + 16,
    {
        self.key.seal(nonce, plaintext, aad)
    }

    /// Open a payload sealed under this schedule's key.
    pub fn open(&self, aad: &Vec<u8>, nonce: &Nonce, ciphertext: &Vec<u8>) -> (r: Result<
        Vec<u8>,
        S3pError,
    >)
        requires
            self.wf(),
            nonce.wf(),
        ensures
            r matches Ok(pt) ==> ciphertext@ == xchacha_seal(self.key_bytes(), nonce@, aad@, pt@)
                && pt@.len() + 16 == ciphertext@.len(),
            forall|pt: Seq<u8>|
                pt.len() / 64 < 4294967295 && ciphertext@ == xchacha_seal(
                    self.key_bytes(),
                    nonce@,
                    aad@,
                    pt,
                ) ==> (r matches Ok(v) && v@ == pt),
            r matches Err(e) ==> e is Encryption,
    {
        self.key.open(nonce, ciphertext, aad)
    }
}

/// The deterministic nonce of chunk `idx`: the base with the little-endian
/// counter XORed into bytes 16 to 23.
pub open spec fn derived_nonce(base: Seq<u8>, idx: u64) -> Seq<u8> {
    Seq::new(
        base.len(),
        |j: int|
            if 16 <= j < 24 {
                (base[j] ^ u64_le_byte(idx, j - 16)) as u8
            } else {
                base[j]
            },
    )
}

/// Derive the nonce for chunk `idx` from a fixed 24-byte base by XORing the
/// little-endian counter into the upper eight bytes.
pub fn derive_nonce_from_base(base: &Nonce, idx: u64) -> (r: Nonce)
    requires
        base.wf(),
    ensures
        r.wf(),
        r@ == derived_nonce(base@, idx),
{
    let mut inner = clone_bytes(base.as_bytes());
    let ctr = crate::bytes::u64_to_le_vec(idx);
    let mut j: usize = 0;
    while j < 8
        invariant
            j <= 8,
            inner@.len() == 24,
            ctr@ == u64_le_bytes(idx),
            base.wf(),
            forall|t: int| 0 <= t < 16 ==> inner@[t] == base@[t],
            forall|t: int| 16 <= t < 16 + j ==> inner@[t] == (base@[t] ^ u64_le_byte(idx, t - 16)) as u8,
            forall|t: int| 16 + j <= t < 24 ==> inner@[t] == base@[t],
        decreases 8 - j,
    {
        let v = inner[16 + j] ^ ctr[j];
        inner.set(16 + j, v);
        j += 1;
    }
    let r = Nonce { inner };
    assert(r@ =~= derived_nonce(base@, idx));
    r
}

/// For a fixed base, distinct chunk counters derive distinct nonces.
pub proof fn lemma_derived_nonce_unique(base: Seq<u8>, i: u64, j: u64)
    requires
        base.len() == 24,
        i != j,
    ensures
        derived_nonce(base, i) != derived_nonce(base, j),
{
    if derived_nonce(base, i) == derived_nonce(base, j) {
        assert forall|t: int| 0 <= t < 8 implies u64_le_byte(i, t) == u64_le_byte(j, t) by {
            assert(derived_nonce(base, i)[t + 16] == derived_nonce(base, j)[t + 16]);
            let b = base[t + 16];
            let x = u64_le_byte(i, t);
            let y = u64_le_byte(j, t);
            assert((b ^ x) == (b ^ y) ==> x == y) by (bit_vector);
        }
        assert(u64_le_bytes(i) =~= u64_le_bytes(j));
        lemma_u64_le_bytes_injective(i, j);
    }
}

} // verus!

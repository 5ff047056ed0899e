//! Cryptographic value types (digests, public keys, signatures) and the two
//! hash primitives the protocol is built on.

use vstd::prelude::*;
use ed25519_dalek::Digest as _;
use crypto::digest::Digest as _;

verus! {

/// The digest produced by SHA-512 truncated to its first 32 bytes, as a
/// function of the input bytes alone.
pub uninterp spec fn sha512_trunc_of(bytes: Seq<u8>) -> Seq<u8>;

/// The digest produced by SHA3-256, as a function of the input bytes alone.
pub uninterp spec fn sha3_256_of(bytes: Seq<u8>) -> Seq<u8>;

/// Relies on `ed25519_dalek::Sha512` (SHA-512): the digest depends on the
/// input bytes alone and is 64 bytes long; the first 32 bytes are kept.
#[verifier::external_body]
pub(crate) fn sha512_trunc(bytes: &[u8]) -> (r: Vec<u8>)
    ensures
        r@ == sha512_trunc_of(bytes@),
        r@.len() == 32,
{
    let mut hasher = ed25519_dalek::Sha512::new();
    hasher.update(bytes);
    hasher.finalize().as_slice()[..32].to_vec()
}

/// Relies on rust-crypto's `Sha3` in SHA3-256 mode: the digest depends on the
/// input bytes alone and is 32 bytes long.
#[verifier::external_body]
pub(crate) fn sha3_256(bytes: &[u8]) -> (r: Vec<u8>)
    ensures
        r@ == sha3_256_of(bytes@),
        r@.len() == 32,
{
    let mut hasher = crypto::sha3::Sha3::new(crypto::sha3::Sha3Mode::Sha3_256);
    hasher.input(bytes);
    let mut out = [0u8; 32];
    hasher.result(&mut out);
    out.to_vec()
}

/// Byte-wise equality of two byte vectors.
pub fn bytes_eq(a: &Vec<u8>, b: &Vec<u8>) -> (r: bool)
    ensures
        r <==> a@ == b@,
{
    if a.len() != b.len() {
        return false;
    }
    let mut i: usize = 0;
    while i < a.len()
        invariant
            i <= a.len(),
            a.len() == b.len(),
            forall|k: int| 0 <= k < i ==> a@[k] == b@[k],
        decreases a.len() - i,
    {
        if a[i] != b[i] {
            return false;
        }
        i = i + 1;
    }
    proof {
        assert(a@ =~= b@);
    }
    true
}

/// A fresh copy of a byte vector.
pub fn clone_bytes(v: &Vec<u8>) -> (r: Vec<u8>)
    ensures
        r@ == v@,
{
    let mut r: Vec<u8> = Vec::new();
    let mut i: usize = 0;
    while i < v.len()
        invariant
            i <= v.len(),
            r@ == v@.take(i as int),
        decreases v.len() - i,
    {
        r.push(v[i]);
        proof {
            assert(v@.take(i + 1 as int) =~= v@.take(i as int).push(v@[i as int]));
        }
        i = i + 1;
    }
    proof {
        assert(v@.take(v.len() as int) =~= v@);
    }
    r
}

/// Appends the bytes of `src` to `dst`.
pub fn append_bytes(dst: &mut Vec<u8>, src: &[u8])
    ensures
        final(dst)@ == old(dst)@ + src@,
{
    let mut i: usize = 0;
    while i < src.len()
        invariant
            i <= src.len(),
            dst@ == old(dst)@ + src@.take(i as int),
        decreases src.len() - i,
    {
        dst.push(src[i]);
        proof {
            assert(old(dst)@ + src@.take(i + 1 as int) =~= (old(dst)@ + src@.take(
                i as int,
            )).push(src@[i as int]));
        }
        i = i + 1;
    }
    proof {
        assert(src@.take(src@.len() as int) =~= src@);
    }
}

/// A fixed-size hash digest: exactly 32 bytes.
#[derive(Debug)]
pub struct Digest {
    pub bytes: Vec<u8>,
}

impl View for Digest {
    type V = Seq<u8>;

    open spec fn view(&self) -> Seq<u8> {
        self.bytes@
    }
}

impl Digest {
    /// A digest is well formed when it holds exactly 32 bytes.
    pub open spec fn wf(&self) -> bool {
        self@.len() == 32
    }

    pub fn new(bytes: Vec<u8>) -> (r: Self)
        ensures
            r@ == bytes@,
    {
        Digest { bytes }
    }

    pub fn as_bytes(&self) -> (r: &Vec<u8>)
        ensures
            r@ == self@,
    {
        &self.bytes
    }
}

impl Clone for Digest {
    fn clone(&self) -> (r: Self)
        ensures
            r@ == self@,
    {
        Digest { bytes: clone_bytes(&self.bytes) }
    }
}

impl PartialEq for Digest {
    fn eq(&self, other: &Self) -> (r: bool) {
        bytes_eq(&self.bytes, &other.bytes)
    }
}

impl vstd::std_specs::cmp::PartialEqSpecImpl for Digest {
    open spec fn obeys_eq_spec() -> bool {
        true
    }

    open spec fn eq_spec(&self, other: &Self) -> bool {
        self@ == other@
    }
}

/// An authority's public key: an opaque byte string used as an identity.
#[derive(Debug)]
pub struct PublicKey {
    pub bytes: Vec<u8>,
}

impl View for PublicKey {
    type V = Seq<u8>;

    open spec fn view(&self) -> Seq<u8> {
        self.bytes@
    }
}

impl PublicKey {
    pub fn new(bytes: Vec<u8>) -> (r: Self)
        ensures
            r@ == bytes@,
    {
        PublicKey { bytes }
    }

    pub fn as_bytes(&self) -> (r: &Vec<u8>)
        ensures
            r@ == self@,
    {
        &self.bytes
    }
}

impl Clone for PublicKey {
    fn clone(&self) -> (r: Self)
        ensures
            r@ == self@,
    {
        PublicKey { bytes: clone_bytes(&self.bytes) }
    }
}

impl PartialEq for PublicKey {
    fn eq(&self, other: &Self) -> (r: bool) {
        bytes_eq(&self.bytes, &other.bytes)
    }
}

impl vstd::std_specs::cmp::PartialEqSpecImpl for PublicKey {
    open spec fn obeys_eq_spec() -> bool {
        true
    }

    open spec fn eq_spec(&self, other: &Self) -> bool {
        self@ == other@
    }
}

/// A signature: an opaque byte string produced by the signing oracle. This
/// crate never checks signatures; it only carries them.
#[derive(Debug)]
pub struct Signature {
    pub bytes: Vec<u8>,
}

impl View for Signature {
    type V = Seq<u8>;

    open spec fn view(&self) -> Seq<u8> {
        self.bytes@
    }
}

impl Signature {
    pub fn new(bytes: Vec<u8>) -> (r: Self)
        ensures
            r@ == bytes@,
    {
        Signature { bytes }
    }

    pub fn as_bytes(&self) -> (r: &Vec<u8>)
        ensures
            r@ == self@,
    {
        &self.bytes
    }
}

impl Clone for Signature {
    fn clone(&self) -> (r: Self)
        ensures
            r@ == self@,
    {
        Signature { bytes: clone_bytes(&self.bytes) }
    }
}

impl PartialEq for Signature {
    fn eq(&self, other: &Self) -> (r: bool) {
        bytes_eq(&self.bytes, &other.bytes)
    }
}

impl vstd::std_specs::cmp::PartialEqSpecImpl for Signature {
    open spec fn obeys_eq_spec() -> bool {
        true
    }

    open spec fn eq_spec(&self, other: &Self) -> bool {
        self@ == other@
    }
}

/// The hash algorithm used for every Merkle leaf and interior node: SHA3-256
/// over the bytes written so far. The byte stream it is fed (a `0x00` prefix
/// for leaves, `0x01` for interior nodes) is a protocol constant.
pub struct ExampleAlgorithm {
    pub buf: Vec<u8>,
}

impl ExampleAlgorithm {
    pub fn new() -> (r: Self)
        ensures
            r.buf@ == Seq::<u8>::empty(),
    {
        ExampleAlgorithm { buf: Vec::new() }
    }

    /// Feed bytes into the running hash.
    pub fn write(&mut self, msg: &[u8])
        ensures
            final(self).buf@ == old(self).buf@ + msg@,
    {
        let mut i: usize = 0;
        while i < msg.len()
            invariant
                i <= msg.len(),
                self.buf@ == old(self).buf@ + msg@.take(i as int),
            decreases msg.len() - i,
        {
            self.buf.push(msg[i]);
            proof {
                assert(old(self).buf@ + msg@.take(i + 1 as int) =~= (old(self).buf@
                    + msg@.take(i as int)).push(msg@[i as int]));
            }
            i = i + 1;
        }
        proof {
            assert(msg@.take(msg@.len() as int) =~= msg@);
        }
    }

    /// The digest of everything written so far.
    pub fn hash(&self) -> (r: Digest)
        ensures
            r@ == sha3_256_of(self.buf@),
            r.wf(),
    {
        Digest::new(sha3_256(self.buf.as_slice()))
    }

    /// Forget everything written so far.
    pub fn reset(&mut self)
        ensures
            final(self).buf@ == Seq::<u8>::empty(),
    {
        self.buf.clear();
    }
}

impl Default for ExampleAlgorithm {
    fn default() -> (r: Self)
        ensures
            r.buf@ == Seq::<u8>::empty(),
    {
        ExampleAlgorithm::new()
    }
}

} // verus!

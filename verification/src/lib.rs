//! Macaroon bearer tokens: a chained message-authentication-code construction.
//!
//! A token carries an identifier, an ordered list of caveats and a signature.
//! The signature is the last link of an HMAC chain: the first link is the MAC
//! of the identifier under the secret key, and every further link is the MAC
//! of the caveat's canonical encoding under the previous link.  Anyone holding
//! the current signature can append further caveats (attenuation) without the
//! secret key, while verification from the key alone re-derives the whole
//! chain and then checks every caveat against a caller-supplied context.

use vstd::prelude::*;

pub mod util;

verus! {

use crate::util::{CodecError, b64_of};

/// What HMAC-SHA-512 returns for a key and a message.  The value is a
/// function of the two byte strings alone.
pub uninterp spec fn hmac_of(key: Seq<u8>, data: Seq<u8>) -> Seq<u8>;

/// Relies on `hmac::Hmac<sha2::Sha512>`: a deterministic keyed MAC that
/// accepts keys of any length (`new_from_slice` never fails for HMAC) and
/// always produces exactly 64 bytes of output.
#[verifier::external_body]
fn hmac_sha512(key: &[u8], data: &[u8]) -> (r: Vec<u8>)
    ensures
        r@ == hmac_of(key@, data@),
        r@.len() == 64,
{
    let mut mac = <hmac::Hmac<sha2::Sha512> as hmac::KeyInit>::new_from_slice(key)
        .expect("HMAC accepts keys of any length");
    hmac::Mac::update(&mut mac, data);
    let out = hmac::Mac::finalize(mac).into_bytes();
    out.as_slice().to_vec()
}

/// The accumulated MAC chain value for a key, an identifier and a sequence of
/// caveat encodings: the first link MACs the identifier under the key, and
/// every further link MACs the next encoding under the previous link.
pub open spec fn chain_sig(key: Seq<u8>, id: Seq<u8>, encs: Seq<Seq<u8>>) -> Seq<u8>
    decreases encs.len(),
{
    if encs.len() == 0 {
        hmac_of(key, id)
    } else {
        hmac_of(chain_sig(key, id, encs.drop_last()), encs.last())
    }
}

/// Appending one encoding to the chain extends it by exactly one MAC link.
pub proof fn lemma_chain_sig_push(key: Seq<u8>, id: Seq<u8>, encs: Seq<Seq<u8>>, e: Seq<u8>)
    ensures
        chain_sig(key, id, encs.push(e)) == hmac_of(chain_sig(key, id, encs), e),
{
    assert(encs.push(e).drop_last() =~= encs);
    assert(encs.push(e).last() == e);
}

/// The capability a caveat needs on the client side: a canonical, deterministic
/// byte serialization.  The same logical value must always encode to the same
/// bytes, because the token's signature is defined over them and must be
/// re-derivable by any conformant party.
pub trait Encodable: Sized {
    /// The canonical byte encoding of this caveat value.  An implementation
    /// that is checked against the library's contracts overrides this with
    /// its own encoding and proves `encode` against it; the default commits
    /// such an implementation to an empty encoding.
    open spec fn canonical(&self) -> Seq<u8> {
        Seq::empty()
    }

    /// Produce the canonical encoding.
    fn encode(&self) -> (r: Vec<u8>)
        ensures
            r@ == self.canonical(),
    ;
}

/// The capability a caveat needs on the server side: checking its restriction
/// against a caller-supplied context.  Clients that only attenuate tokens do
/// not need this trait.
pub trait Caveat: Sized {
    /// The caveat's own error value, reported when the restriction fails.
    type Error;

    /// Whatever runtime facts the verifier needs to check the restriction.
    type Context;

    /// Whether this caveat's restriction is satisfied by the context.  An
    /// implementation that is checked against the library's contracts
    /// overrides this with its own restriction; the default commits such an
    /// implementation to a check that always succeeds.
    open spec fn passes(&self, ctx: &Self::Context) -> bool {
        true
    }

    /// The error value reported when the restriction is not satisfied.
    open spec fn failure(&self, ctx: &Self::Context) -> Self::Error {
        vstd::pervasive::arbitrary()
    }

    /// Check the caveat: `Ok(())` when the context satisfies the restriction,
    /// otherwise the caveat's own error value.
    fn verify(&self, ctx: &Self::Context) -> (r: Result<(), Self::Error>)
        ensures
            r is Ok <==> self.passes(ctx),
            r matches Err(e) ==> e == self.failure(ctx),
    ;
}

/// The sequence of canonical encodings of a sequence of caveats.
pub open spec fn encodings<C: Encodable>(cs: Seq<C>) -> Seq<Seq<u8>> {
    cs.map_values(|c: C| c.canonical())
}

/// What checking a sequence of caveats in order yields: `Ok(())` when every
/// caveat passes, otherwise the error of the first caveat that fails; later
/// caveats are not consulted.
pub open spec fn run_caveats<C: Caveat>(cs: Seq<C>, ctx: &C::Context) -> Result<(), C::Error>
    decreases cs.len(),
{
    if cs.len() == 0 {
        Ok(())
    } else if !cs[0].passes(ctx) {
        Err(cs[0].failure(ctx))
    } else {
        run_caveats(cs.drop_first(), ctx)
    }
}

/// A macaroon token: an identifier, an ordered, append-only list of caveats,
/// and the accumulated chain signature.  The secret key is never stored.
#[derive(Debug)]
pub struct Macaroon<C> {
    id: String,
    caveats: Vec<C>,
    sig: Vec<u8>,
}

/// A failure to verify a token.
#[derive(Debug, PartialEq)]
pub enum VerificationError<C: Caveat> {
    /// The token is properly signed, but one of the caveats forbids the
    /// attempted action; carries that caveat's own error value.
    CaveatFailed(C::Error),
    /// The token's signature does not match what the key re-derives: a forged
    /// or tampered token, or the wrong key.
    InvalidToken,
}

impl<C> Macaroon<C> {
    /// The token's identifier.
    pub closed spec fn spec_id(&self) -> Seq<char> {
        self.id@
    }

    /// The token's caveats, in the order they were appended.
    pub closed spec fn spec_caveats(&self) -> Seq<C> {
        self.caveats@
    }

    /// The token's current signature (the chain tail).
    pub closed spec fn spec_sig(&self) -> Seq<u8> {
        self.sig@
    }

    /// The identifier's bytes, as fed to the first MAC link.
    pub open spec fn id_bytes(&self) -> Seq<u8> {
        vstd::utf8::encode_utf8(self.spec_id())
    }

    #[verifier::type_invariant]
    spec fn sig_len_fixed(self) -> bool {
        self.sig@.len() == 64
    }

    /// Read-only access to the current chain tail, for building third-party
    /// discharge protocols on top of the token.
    pub fn tail(&self) -> (r: &Vec<u8>)
        ensures
            r@ == self.spec_sig(),
            r@.len() == 64,
    {
        proof {
            use_type_invariant(self);
        }
        &self.sig
    }
}

impl<C: Encodable> Macaroon<C> {
    /// The token's signature is exactly the MAC chain over its identifier and
    /// caveat list under `key`.
    pub open spec fn signed_with(&self, key: Seq<u8>) -> bool {
        self.spec_sig() == chain_sig(key, self.id_bytes(), encodings(self.spec_caveats()))
    }

    /// Create a token: empty caveat list, signature `mac(key, id)`.  Keys of
    /// any length are accepted; there is no failure mode.
    pub fn new(id: &str, key: &[u8]) -> (r: Self)
        ensures
            r.spec_id() == id@,
            r.spec_caveats() == Seq::<C>::empty(),
            r.signed_with(key@),
            r.spec_sig() == hmac_of(key@, vstd::utf8::encode_utf8(id@)),
    {
        let sig = hmac_sha512(key, id.as_bytes());
        let r = Macaroon { id: id.to_owned(), caveats: Vec::new(), sig };
        proof {
            assert(r.spec_caveats() =~= Seq::<C>::empty());
            assert(encodings(r.spec_caveats()) =~= Seq::<Seq<u8>>::empty());
        }
        r
    }

    /// Append a caveat: the new signature MACs the caveat's canonical
    /// encoding under the previous signature; earlier links are never redone,
    /// and the caveat list only ever grows at its end.
    pub fn attenuate(self, caveat: C) -> (r: Self)
        ensures
            r.spec_id() == self.spec_id(),
            r.spec_caveats() == self.spec_caveats().push(caveat),
            r.spec_sig() == hmac_of(self.spec_sig(), caveat.canonical()),
    {
        let enc = caveat.encode();
        let sig = hmac_sha512(self.sig.as_slice(), enc.as_slice());
        let mut caveats = self.caveats;
        caveats.push(caveat);
        Macaroon { id: self.id, caveats, sig }
    }
}

/// Attenuation preserves derivability: a token whose signature is the chain
/// under some key keeps that property when a caveat is appended as
/// `attenuate` does.
pub proof fn lemma_attenuate_signed_with<C: Encodable>(
    pre: Macaroon<C>,
    post: Macaroon<C>,
    caveat: C,
    key: Seq<u8>,
)
    requires
        pre.signed_with(key),
        post.spec_id() == pre.spec_id(),
        post.spec_caveats() == pre.spec_caveats().push(caveat),
        post.spec_sig() == hmac_of(pre.spec_sig(), caveat.canonical()),
    ensures
        post.signed_with(key),
{
    assert(encodings(post.spec_caveats()) =~= encodings(pre.spec_caveats()).push(
        caveat.canonical(),
    ));
    lemma_chain_sig_push(key, pre.id_bytes(), encodings(pre.spec_caveats()), caveat.canonical());
}

/// Determinism: two tokens whose signatures are the chain under the same key,
/// with the same identifier and the same caveat encodings, carry identical
/// signatures.
pub proof fn lemma_signature_deterministic<C: Encodable>(
    m1: Macaroon<C>,
    m2: Macaroon<C>,
    key: Seq<u8>,
)
    requires
        m1.signed_with(key),
        m2.signed_with(key),
        m1.spec_id() == m2.spec_id(),
        encodings(m1.spec_caveats()) == encodings(m2.spec_caveats()),
    ensures
        m1.spec_sig() == m2.spec_sig(),
{
}

/// Fail-fast: when every caveat before position `i` passes and the caveat at
/// position `i` fails, checking the sequence reports exactly that caveat's
/// error; the caveats after it play no part in the outcome.
pub proof fn lemma_fail_fast<C: Caveat>(cs: Seq<C>, ctx: &C::Context, i: int)
    requires
        0 <= i < cs.len(),
        !cs[i].passes(ctx),
        forall|j: int| 0 <= j < i ==> cs[j].passes(ctx),
    ensures
        run_caveats(cs, ctx) == Err::<(), C::Error>(cs[i].failure(ctx)),
    decreases i,
{
    if i > 0 {
        let rest = cs.drop_first();
        assert(forall|j: int| 0 <= j < i - 1 ==> rest[j] == cs[j + 1]);
        lemma_fail_fast(rest, ctx, i - 1);
    }
}

/// All-or-nothing: checking a caveat sequence succeeds exactly when every
/// caveat in it passes, so a token only ever authorizes contexts that satisfy
/// all of its restrictions at once.
pub proof fn lemma_all_must_pass<C: Caveat>(cs: Seq<C>, ctx: &C::Context)
    ensures
        run_caveats(cs, ctx) is Ok <==> (forall|i: int|
            0 <= i < cs.len() ==> cs[i].passes(ctx)),
    decreases cs.len(),
{
    if cs.len() > 0 {
        let rest = cs.drop_first();
        lemma_all_must_pass(rest, ctx);
        assert(forall|j: int| 0 <= j < rest.len() ==> rest[j] == cs[j + 1]);
        if cs[0].passes(ctx) && (forall|j: int| 0 <= j < rest.len() ==> rest[j].passes(ctx)) {
            assert forall|i: int| 0 <= i < cs.len() implies cs[i].passes(ctx) by {
                if i > 0 {
                    assert(rest[i - 1].passes(ctx));
                }
            }
        }
    }
}

/// Compare two byte strings without stopping at the first differing byte, so
/// that the comparison's timing does not depend on the position of a
/// mismatch.
fn tags_equal(a: &[u8], b: &[u8]) -> (r: bool)
    ensures
        r == (a@ == b@),
{
    if a.len() != b.len() {
        return false;
    }
    let mut diff: u8 = 0;
    let mut i: usize = 0;
    while i < a.len()
        invariant
            a@.len() == b@.len(),
            i <= a@.len(),
            (diff == 0) <==> (forall|j: int| 0 <= j < i ==> a@[j] == b@[j]),
        decreases a@.len() - i,
    {
        let x = a[i];
        let y = b[i];
        let d = x ^ y;
        proof {
            assert((x ^ y) == 0 <==> x == y) by (bit_vector);
            assert((diff | d) == 0 <==> diff == 0 && d == 0) by (bit_vector);
        }
        diff = diff | d;
        i += 1;
    }
    if diff == 0 {
        proof {
            assert(a@ =~= b@);
        }
        true
    } else {
        false
    }
}

impl<C: Encodable + Caveat> Macaroon<C> {
    /// What verification yields: `InvalidToken` unless the stored signature
    /// is the chain that `key` re-derives; otherwise the error of the first
    /// failing caveat, wrapped; otherwise success.
    pub open spec fn spec_verify(&self, key: Seq<u8>, ctx: &C::Context) -> Result<
        (),
        VerificationError<C>,
    > {
        if !self.signed_with(key) {
            Err(VerificationError::InvalidToken)
        } else {
            match run_caveats(self.spec_caveats(), ctx) {
                Ok(_) => Ok(()),
                Err(e) => Err(VerificationError::CaveatFailed(e)),
            }
        }
    }

    /// Re-derive the expected signature from `key` and the stored identifier
    /// and caveat list, ignoring the stored signature; compare the two; and
    /// only on a match check each caveat in storage order against `ctx`,
    /// stopping at the first failure.
    pub fn verify(&self, key: &[u8], ctx: &C::Context) -> (r: Result<(), VerificationError<C>>)
        ensures
            r == self.spec_verify(key@, ctx),
    {
        let ghost cs = self.caveats@;
        let mut cur = hmac_sha512(key, self.id.as_str().as_bytes());
        proof {
            assert(cs.take(0) =~= Seq::<C>::empty());
            assert(encodings(cs.take(0)) =~= Seq::<Seq<u8>>::empty());
        }
        let n = self.caveats.len();
        let mut i: usize = 0;
        while i < n
            invariant
                n == cs.len(),
                cs == self.caveats@,
                i <= n,
                cur@ == chain_sig(key@, self.id_bytes(), encodings(cs.take(i as int))),
            decreases n - i,
        {
            let enc = self.caveats[i].encode();
            cur = hmac_sha512(cur.as_slice(), enc.as_slice());
            proof {
                assert(encodings(cs.take(i + 1)) =~= encodings(cs.take(i as int)).push(
                    cs[i as int].canonical(),
                ));
                lemma_chain_sig_push(
                    key@,
                    self.id_bytes(),
                    encodings(cs.take(i as int)),
                    cs[i as int].canonical(),
                );
            }
            i += 1;
        }
        proof {
            assert(cs.take(n as int) =~= cs);
        }
        if !tags_equal(cur.as_slice(), self.sig.as_slice()) {
            return Err(VerificationError::InvalidToken);
        }
        let mut j: usize = 0;
        while j < n
            invariant
                n == cs.len(),
                cs == self.caveats@,
                j <= n,
                self.signed_with(key@),
                run_caveats(cs.skip(j as int), ctx) == run_caveats(cs, ctx),
            decreases n - j,
        {
            let step = self.caveats[j].verify(ctx);
            proof {
                assert(cs.skip(j as int)[0] == cs[j as int]);
                assert(cs.skip(j as int).drop_first() =~= cs.skip(j + 1));
            }
            match step {
                Ok(_) => {
                    j += 1;
                }
                Err(e) => {
                    return Err(VerificationError::CaveatFailed(e));
                }
            }
        }
        proof {
            assert(cs.skip(n as int) =~= Seq::<C>::empty());
        }
        Ok(())
    }
}

/// All-or-nothing, at the token level: verification succeeds exactly when the
/// signature is the chain under the key and every caveat passes; with the
/// right key, a context outside any one caveat's restriction is rejected.
pub proof fn lemma_verify_ok_iff<C: Encodable + Caveat>(
    m: &Macaroon<C>,
    key: Seq<u8>,
    ctx: &C::Context,
)
    ensures
        m.spec_verify(key, ctx) is Ok <==> (m.signed_with(key) && forall|i: int|
            0 <= i < m.spec_caveats().len() ==> m.spec_caveats()[i].passes(ctx)),
{
    lemma_all_must_pass(m.spec_caveats(), ctx);
}

impl<C> Macaroon<C> {
    /// Take the token apart for transport: the identifier, the caveats in
    /// order, and the signature's URL-safe base64 text.
    pub fn into_parts(self) -> (r: (String, Vec<C>, String))
        ensures
            r.0@ == self.spec_id(),
            r.1@ == self.spec_caveats(),
            r.2@ == b64_of(self.spec_sig()),
    {
        let sig64 = util::as_base64(self.sig.as_slice());
        (self.id, self.caveats, sig64)
    }

    /// Rebuild a token from transported parts.  This succeeds exactly when
    /// the signature text is canonical URL-safe base64 of a value of the
    /// MAC's output length; a malformed or truncated signature is reported as
    /// a codec error, never as a verification error and never as a panic.
    pub fn from_parts(id: String, caveats: Vec<C>, sig: &str) -> (r: Result<Self, CodecError>)
        ensures
            (match r {
                Ok(m) => {
                    &&& m.spec_id() == id@
                    &&& m.spec_caveats() == caveats@
                    &&& m.spec_sig().len() == 64
                    &&& b64_of(m.spec_sig()) == sig@
                    &&& forall|x: Seq<u8>| b64_of(x) == sig@ ==> x == m.spec_sig()
                },
                Err(e) => {
                    &&& (e == CodecError::InvalidBase64 || e == CodecError::WrongSignatureLength)
                    &&& (e == CodecError::InvalidBase64 ==> forall|x: Seq<u8>| b64_of(x) != sig@)
                    &&& (e == CodecError::WrongSignatureLength ==> forall|x: Seq<u8>|
                        b64_of(x) == sig@ ==> x.len() != 64)
                },
            }),
    {
        match util::from_base64(sig) {
            Ok(bytes) => {
                if bytes.len() == 64 {
                    Ok(Macaroon { id, caveats, sig: bytes })
                } else {
                    Err(CodecError::WrongSignatureLength)
                }
            },
            Err(e) => Err(e),
        }
    }

    /// Round trip: taking a token apart and rebuilding it from its own parts
    /// yields the very same token, so its verification outcome under any key
    /// and context is unchanged.
    pub fn reencode(self) -> (r: Self)
        ensures
            r.spec_id() == self.spec_id(),
            r.spec_caveats() == self.spec_caveats(),
            r.spec_sig() == self.spec_sig(),
    {
        proof {
            use_type_invariant(&self);
        }
        let (id, caveats, sig64) = self.into_parts();
        match Self::from_parts(id, caveats, sig64.as_str()) {
            Ok(m) => m,
            Err(_) => vstd::pervasive::unreached(),
        }
    }
}

} // verus!

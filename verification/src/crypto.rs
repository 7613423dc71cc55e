use crate::errors::CoreError;
use vstd::prelude::*;

verus! {

// ---------------------------------------------------------------------------
// Hex encoding of identities and key material
// ---------------------------------------------------------------------------

pub open spec fn hex_digit(n: u8) -> u8 {
    if n < 10 {
        (0x30 + n) as u8
    } else {
        (0x61 + (n - 10)) as u8
    }
}

/// Lowercase hex: two digits per byte, high nibble first.
pub open spec fn hex_of(s: Seq<u8>) -> Seq<u8>
    decreases s.len(),
{
    if s.len() == 0 {
        Seq::empty()
    } else {
        hex_of(s.drop_last()) + seq![hex_digit(s.last() / 16), hex_digit(s.last() % 16)]
    }
}

pub open spec fn is_hex_digit(c: u8) -> bool {
    (0x30 <= c && c <= 0x39) || (0x41 <= c && c <= 0x46) || (0x61 <= c && c <= 0x66)
}

pub open spec fn hex_val(c: u8) -> u8 {
    if 0x30 <= c && c <= 0x39 {
        (c - 0x30) as u8
    } else if 0x41 <= c && c <= 0x46 {
        (c - 0x41 + 10) as u8
    } else {
        (c - 0x61 + 10) as u8
    }
}

/// The bytes an even-length hex string spells.
pub open spec fn hex_decoded(s: Seq<u8>) -> Seq<u8>
    decreases s.len(),
{
    if s.len() < 2 {
        Seq::empty()
    } else {
        hex_decoded(s.drop_last().drop_last()).push(
            (hex_val(s[s.len() - 2]) * 16 + hex_val(s[s.len() - 1])) as u8,
        )
    }
}

pub proof fn lemma_hex_of_len(s: Seq<u8>)
    ensures
        hex_of(s).len() == 2 * s.len(),
    decreases s.len(),
{
    if s.len() > 0 {
        lemma_hex_of_len(s.drop_last());
    }
}

pub proof fn lemma_hex_decoded_len(s: Seq<u8>)
    requires
        s.len() % 2 == 0,
    ensures
        hex_decoded(s).len() == s.len() / 2,
    decreases s.len(),
{
    if s.len() >= 2 {
        lemma_hex_decoded_len(s.drop_last().drop_last());
    }
}

/// Decoding inverts encoding.
pub proof fn lemma_hex_roundtrip(s: Seq<u8>)
    ensures
        hex_decoded(hex_of(s)) =~= s,
        forall|i: int| 0 <= i < hex_of(s).len() ==> is_hex_digit(#[trigger] hex_of(s)[i]),
    decreases s.len(),
{
    if s.len() > 0 {
        lemma_hex_roundtrip(s.drop_last());
        lemma_hex_of_len(s.drop_last());
        let h = hex_of(s);
        assert(h.drop_last().drop_last() =~= hex_of(s.drop_last()));
        let b = s.last();
        assert(hex_val(hex_digit(b / 16)) == b / 16);
        assert(hex_val(hex_digit(b % 16)) == b % 16);
        assert(h[h.len() - 2] == hex_digit(b / 16) && h[h.len() - 1] == hex_digit(b % 16));
        assert(hex_decoded(h).last() == b);
    }
}

/// Relies on hex::encode: lowercase output, two digits per byte, high nibble
/// first.
#[verifier::external_body]
pub fn hex_encode(b: &[u8]) -> (r: Vec<u8>)
    ensures
        r@ == hex_of(b@),
{
    hex::encode(b).into_bytes()
}

/// Relies on hex::decode: an even-length string of hex digits of either case
/// decodes to the bytes it spells; any other input is refused.
#[verifier::external_body]
pub fn hex_decode(b: &[u8]) -> (r: Option<Vec<u8>>)
    ensures
        r is Some <==> (b@.len() % 2 == 0 && forall|i: int|
            0 <= i < b@.len() ==> is_hex_digit(#[trigger] b@[i])),
        r matches Some(v) ==> v@ == hex_decoded(b@),
{
    hex::decode(b).ok()
}

// ---------------------------------------------------------------------------
// The core's keyed tag and digest: plain Fowler–Noll–Vo folding
// ---------------------------------------------------------------------------

pub const FNV_INIT: u64 = 0xcbf29ce484222325;

pub const FNV_PRIME: u64 = 0x100000001b3;

pub open spec fn fnv_mix(h: u64, b: u8) -> u64 {
    ((h ^ (b as u64)) as u128 * FNV_PRIME as u128) as u64
}

/// The folding state after absorbing `s`, starting from `init`.
pub open spec fn fnv_fold(init: u64, s: Seq<u8>) -> u64
    decreases s.len(),
{
    if s.len() == 0 {
        init
    } else {
        fnv_mix(fnv_fold(init, s.drop_last()), s.last())
    }
}

/// Folds `s` into a 64-bit state seeded by `init`.
pub fn fnv_bytes(init: u64, s: &[u8]) -> (r: u64)
    ensures
        r == fnv_fold(init, s@),
{
    let mut h: u64 = init;
    let mut i: usize = 0;
    while i < s.len()
        invariant
            i <= s@.len(),
            h == fnv_fold(init, s@.subrange(0, i as int)),
        decreases s@.len() - i,
    {
        let wide: u128 = (h ^ (s[i] as u64)) as u128 * FNV_PRIME as u128;
        let ghost pre = s@.subrange(0, i as int);
        let ghost cur = s@.subrange(0, i as int + 1);
        proof {
            assert(cur.drop_last() =~= pre);
        }
        h = #[verifier::truncate] (wide as u64);
        i = i + 1;
    }
    proof {
        assert(s@.subrange(0, s@.len() as int) =~= s@);
    }
    h
}

/// The eight big-endian bytes of `h`.
pub open spec fn be8(h: u64) -> Seq<u8> {
    seq![
        (h >> 56) as u8,
        ((h >> 48) & 0xff) as u8,
        ((h >> 40) & 0xff) as u8,
        ((h >> 32) & 0xff) as u8,
        ((h >> 24) & 0xff) as u8,
        ((h >> 16) & 0xff) as u8,
        ((h >> 8) & 0xff) as u8,
        (h & 0xff) as u8,
    ]
}

/// Appends the big-endian bytes of `h`.
pub fn push_be8(out: &mut Vec<u8>, h: u64)
    ensures
        final(out)@ == old(out)@ + be8(h),
{
    out.push((h >> 56) as u8);
    out.push(#[verifier::truncate] ((h >> 48) as u8));
    out.push(#[verifier::truncate] ((h >> 40) as u8));
    out.push(#[verifier::truncate] ((h >> 32) as u8));
    out.push(#[verifier::truncate] ((h >> 24) as u8));
    out.push(#[verifier::truncate] ((h >> 16) as u8));
    out.push(#[verifier::truncate] ((h >> 8) as u8));
    out.push(#[verifier::truncate] (h as u8));
    proof {
        assert((h >> 48) as u8 == ((h >> 48) & 0xff) as u8) by (bit_vector);
        assert((h >> 40) as u8 == ((h >> 40) & 0xff) as u8) by (bit_vector);
        assert((h >> 32) as u8 == ((h >> 32) & 0xff) as u8) by (bit_vector);
        assert((h >> 24) as u8 == ((h >> 24) & 0xff) as u8) by (bit_vector);
        assert((h >> 16) as u8 == ((h >> 16) & 0xff) as u8) by (bit_vector);
        assert((h >> 8) as u8 == ((h >> 8) & 0xff) as u8) by (bit_vector);
        assert(h as u8 == (h & 0xff) as u8) by (bit_vector);
        assert(final(out)@ =~= old(out)@ + be8(h));
    }
}

/// The canonical 32-byte digest the core signs: four folding lanes over the
/// same bytes, seeded apart, serialized big-endian.
pub open spec fn digest32_of(s: Seq<u8>) -> Seq<u8> {
    be8(fnv_fold(FNV_INIT, s)) + be8(fnv_fold(FNV_INIT ^ 1, s)) + be8(fnv_fold(FNV_INIT ^ 2, s))
        + be8(fnv_fold(FNV_INIT ^ 3, s))
}

pub fn digest32(s: &[u8]) -> (r: Vec<u8>)
    ensures
        r@ == digest32_of(s@),
        r@.len() == 32,
{
    let mut out: Vec<u8> = Vec::new();
    push_be8(&mut out, fnv_bytes(FNV_INIT, s));
    push_be8(&mut out, fnv_bytes(FNV_INIT ^ 1, s));
    push_be8(&mut out, fnv_bytes(FNV_INIT ^ 2, s));
    push_be8(&mut out, fnv_bytes(FNV_INIT ^ 3, s));
    proof {
        assert(out@ =~= digest32_of(s@));
    }
    out
}

// ---------------------------------------------------------------------------
// Signatures over the curve the identities live on
// ---------------------------------------------------------------------------

/// The compressed public key derived from a 32-byte secret key; a function of
/// the secret alone.
pub uninterp spec fn pubkey_of(sk: Seq<u8>) -> Seq<u8>;

/// Whether a byte string is a usable secret key: 32 bytes spelling a nonzero
/// scalar below the curve order. A function of the bytes alone; what
/// secp256k1::SecretKey::from_secret_bytes accepts.
pub uninterp spec fn sk_ok(sk: Seq<u8>) -> bool;

/// The compact signature RFC 6979 signing yields for a digest and a secret
/// key; deterministic in the two.
pub uninterp spec fn sig_of(digest: Seq<u8>, sk: Seq<u8>) -> Seq<u8>;

/// Whether a compact signature verifies for a digest under a compressed
/// public key; a function of the three byte strings alone.
pub uninterp spec fn sig_valid(digest: Seq<u8>, sig: Seq<u8>, pk: Seq<u8>) -> bool;

/// Relies on secp256k1::SecretKey::from_secret_bytes,
/// PublicKey::from_secret_key and PublicKey::serialize: the compressed,
/// 33-byte public key of a valid secret key, a function of the secret alone;
/// `None` exactly when the bytes are no usable secret.
#[verifier::external_body]
pub fn derive_public_key(sk: &[u8]) -> (r: Option<Vec<u8>>)
    ensures
        r is Some <==> sk_ok(sk@),
        r matches Some(pk) ==> pk@ == pubkey_of(sk@) && pk@.len() == 33,
{
    let arr: [u8; 32] = sk.try_into().ok()?;
    let key = secp256k1::SecretKey::from_secret_bytes(arr).ok()?;
    Some(secp256k1::PublicKey::from_secret_key(&key).serialize().to_vec())
}

/// Relies on secp256k1::ecdsa::sign: RFC 6979 signing is deterministic in
/// digest and key, and what it signs verifies under the matching public key
/// (shown by secp256k1::ecdsa::verify's own documentation). Signing itself
/// never fails; `None` comes exactly from a key that is no usable secret.
#[verifier::external_body]
pub fn sign_digest(digest: &[u8], sk: &[u8]) -> (r: Option<Vec<u8>>)
    requires
        digest@.len() == 32,
    ensures
        r is Some <==> sk_ok(sk@),
        r matches Some(sig) ==> sig@ == sig_of(digest@, sk@) && sig@.len() == 64 && sig_valid(
            digest@,
            sig@,
            pubkey_of(sk@),
        ),
{
    let arr: [u8; 32] = sk.try_into().ok()?;
    let key = secp256k1::SecretKey::from_secret_bytes(arr).ok()?;
    let msg = secp256k1::Message::from_digest(digest.try_into().ok()?);
    Some(secp256k1::ecdsa::sign(msg, &key).serialize_compact().to_vec())
}

/// Relies on secp256k1::ecdsa::verify, together with
/// Signature::from_compact and PublicKey::from_slice: whether these bytes
/// parse and verify is a function of the three byte strings alone.
#[verifier::external_body]
pub fn verify_digest(digest: &[u8], sig: &[u8], pk: &[u8]) -> (r: bool)
    requires
        digest@.len() == 32,
    ensures
        r == sig_valid(digest@, sig@, pk@),
{
    let arr: [u8; 32] = match digest.try_into() {
        Ok(a) => a,
        Err(_) => return false,
    };
    let msg = secp256k1::Message::from_digest(arr);
    let parsed_sig = match secp256k1::ecdsa::Signature::from_compact(sig) {
        Ok(s) => s,
        Err(_) => return false,
    };
    let parsed_pk = match secp256k1::PublicKey::from_slice(pk) {
        Ok(p) => p,
        Err(_) => return false,
    };
    secp256k1::ecdsa::verify(&parsed_sig, msg, &parsed_pk).is_ok()
}

// ---------------------------------------------------------------------------
// Key material
// ---------------------------------------------------------------------------

/// What a core needs at start: the token-signing secret, its signing keypair
/// and its hex identity.
pub struct KeyMaterial {
    pub jwt_secret: Vec<u8>,
    pub secret_key: Vec<u8>,
    pub public_key: Vec<u8>,
    pub host_id: Vec<u8>,
}

impl KeyMaterial {
    pub open spec fn wf(self) -> bool {
        &&& self.jwt_secret@.len() == 32
        &&& self.secret_key@.len() == 32
        &&& self.public_key@ == pubkey_of(self.secret_key@)
        &&& self.public_key@.len() == 33
        &&& self.host_id@ == hex_of(self.public_key@)
    }
}

/// Whether a byte string is the hex rendering of exactly 32 bytes.
pub open spec fn hex_of_32(s: Seq<u8>) -> bool {
    &&& s.len() == 64
    &&& forall|i: int| 0 <= i < s.len() ==> is_hex_digit(#[trigger] s[i])
}

/// Decodes the two persisted hex files into the core's key material. The
/// host identity is the hex of the compressed public key. Succeeds exactly
/// when both files spell 32 bytes and the secret is usable.
pub fn parse_key_material(jwt_secret_hex: &[u8], priv_key_hex: &[u8]) -> (r: Result<
    KeyMaterial,
    CoreError,
>)
    ensures
        r is Ok <==> hex_of_32(jwt_secret_hex@) && hex_of_32(priv_key_hex@) && sk_ok(
            hex_decoded(priv_key_hex@),
        ),
        r is Err ==> r == Err::<KeyMaterial, CoreError>(CoreError::Internal),
        r matches Ok(km) ==> km.wf() && km.jwt_secret@ == hex_decoded(jwt_secret_hex@)
            && km.secret_key@ == hex_decoded(priv_key_hex@),
{
    proof {
        if jwt_secret_hex@.len() % 2 == 0 {
            lemma_hex_decoded_len(jwt_secret_hex@);
        }
        if priv_key_hex@.len() % 2 == 0 {
            lemma_hex_decoded_len(priv_key_hex@);
        }
    }
    let jwt_secret = match hex_decode(jwt_secret_hex) {
        Some(v) => v,
        None => {
            return Err(CoreError::Internal);
        },
    };
    if jwt_secret.len() != 32 {
        return Err(CoreError::Internal);
    }
    let secret_key = match hex_decode(priv_key_hex) {
        Some(v) => v,
        None => {
            return Err(CoreError::Internal);
        },
    };
    if secret_key.len() != 32 {
        return Err(CoreError::Internal);
    }
    let public_key = match derive_public_key(secret_key.as_slice()) {
        Some(pk) => pk,
        None => {
            return Err(CoreError::Internal);
        },
    };
    let host_id = hex_encode(public_key.as_slice());
    Ok(KeyMaterial { jwt_secret, secret_key, public_key, host_id })
}

} // verus!

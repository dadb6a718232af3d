//! Agent identities: an agent id is the lowercase hex encoding of an Ed25519
//! public key whose secret key is drawn from the operating system's generator.
use vstd::prelude::*;
use ed25519_dalek::SigningKey;
use rand_core::{OsRng, RngCore};
use crate::text::digit_char;

verus! {

/// The Ed25519 public key (32 bytes) that belongs to the secret key `secret`.
pub uninterp spec fn ed25519_public_key(secret: Seq<u8>) -> Seq<u8>;

/// The lowercase hex digit for `d` (below 16).
pub open spec fn hex_digit(d: nat) -> char {
    if d < 10 {
        digit_char(d)
    } else {
        ((87 + d) as u8) as char
    }
}

/// `bytes` in lowercase hex, two digits per byte, high half first.
pub open spec fn lower_hex(bytes: Seq<u8>) -> Seq<char>
    decreases bytes.len(),
{
    if bytes.len() == 0 {
        Seq::empty()
    } else {
        lower_hex(bytes.drop_last()) + seq![
            hex_digit((bytes.last() / 16) as nat),
            hex_digit((bytes.last() % 16) as nat),
        ]
    }
}

/// Draws the 32 bytes of a fresh Ed25519 secret key from the operating
/// system's random generator, with `RngCore::try_fill_bytes` on `OsRng`
/// (rand_core): the draw that `SigningKey::generate` makes, without its panic.
///
/// Trusted, and nothing is claimed of the bytes: they come from chance. The
/// result is `None` where the generator reports an error.
#[verifier::external_body]
pub(crate) fn random_secret_key() -> (secret: Option<[u8; 32]>) {
    let mut secret = [0u8; 32];
    match OsRng.try_fill_bytes(&mut secret) {
        Ok(()) => Some(secret),
        Err(_) => None,
    }
}

/// The Ed25519 public key of `secret`, through `SigningKey::from_bytes`,
/// `verifying_key` and `VerifyingKey::to_bytes` (ed25519-dalek).
///
/// Trusted: the result is the key that `ed25519_public_key` names for these
/// secret bytes.
#[verifier::external_body]
pub(crate) fn public_key_of(secret: &[u8; 32]) -> (public: [u8; 32])
    ensures
        public@ == ed25519_public_key(secret@),
{
    SigningKey::from_bytes(secret).verifying_key().to_bytes()
}

/// `bytes` in lowercase hex, through `hex::encode`.
///
/// Trusted: as the crate documents, each byte becomes two lowercase hex
/// digits, high half first.
#[verifier::external_body]
pub(crate) fn hex_encode(bytes: &[u8]) -> (s: String)
    ensures
        s@ == lower_hex(bytes@),
{
    hex::encode(bytes)
}

/// Whether `c` is one of the digits `0`-`9`, `a`-`f`.
pub open spec fn is_lower_hex_digit(c: char) -> bool {
    ('0' <= c && c <= '9') || ('a' <= c && c <= 'f')
}

/// The hex text of `bytes` has two digits per byte, each a lowercase hex digit.
pub proof fn lemma_lower_hex_shape(bytes: Seq<u8>)
    ensures
        lower_hex(bytes).len() == 2 * bytes.len(),
        forall|i: int| 0 <= i < lower_hex(bytes).len() ==> is_lower_hex_digit(#[trigger] lower_hex(bytes)[i]),
    decreases bytes.len(),
{
    if bytes.len() > 0 {
        lemma_lower_hex_shape(bytes.drop_last());
        let b = bytes.last();
        let hi = (b / 16) as nat;
        let lo = (b % 16) as nat;
        assert(hi < 16 && lo < 16);
        assert(is_lower_hex_digit(hex_digit(hi)) && is_lower_hex_digit(hex_digit(lo))) by {
            assert(forall|d: nat| d < 16 ==> is_lower_hex_digit(#[trigger] hex_digit(d))) by {
                assert forall|d: nat| d < 16 implies is_lower_hex_digit(#[trigger] hex_digit(d)) by {
                    if d < 10 {
                        assert(digit_char(d) == ((48 + d) as u8) as char);
                    }
                }
            }
        }
        let prev = lower_hex(bytes.drop_last());
        assert forall|i: int| 0 <= i < lower_hex(bytes).len() implies is_lower_hex_digit(#[trigger] lower_hex(bytes)[i]) by {
            if i < prev.len() {
                assert(lower_hex(bytes)[i] == prev[i]);
            }
        }
    }
}

/// Whether `s` has the shape of an agent id: 64 lowercase hex digits.
pub open spec fn is_agent_id(s: Seq<char>) -> bool {
    s.len() == 64 && forall|i: int| 0 <= i < s.len() ==> is_lower_hex_digit(#[trigger] s[i])
}

/// The agent id that belongs to the secret key `secret`: its public key in hex.
pub open spec fn agent_id_of(secret: Seq<u8>) -> Seq<char> {
    lower_hex(ed25519_public_key(secret))
}

/// Computes the agent id of `secret`.
pub fn agent_id_from_secret(secret: &[u8; 32]) -> (id: String)
    ensures
        id@ == agent_id_of(secret@),
        is_agent_id(id@),
{
    let public = public_key_of(secret);
    proof {
        lemma_lower_hex_shape(public@);
    }
    hex_encode(&public)
}

} // verus!

verus! {

/// Different hex digits stand for different values.
proof fn lemma_hex_digit_injective(d: nat, e: nat)
    requires
        d < 16,
        e < 16,
        hex_digit(d) == hex_digit(e),
    ensures
        d == e,
{
    let cd = hex_digit(d);
    let ce = hex_digit(e);
    assert(d < 10 ==> cd as int == 48 + d);
    assert(d >= 10 ==> cd as int == 87 + d);
    assert(e < 10 ==> ce as int == 48 + e);
    assert(e >= 10 ==> ce as int == 87 + e);
}

/// Different byte sequences have different hex texts.
pub proof fn lemma_lower_hex_injective(a: Seq<u8>, b: Seq<u8>)
    requires
        lower_hex(a) == lower_hex(b),
    ensures
        a == b,
    decreases a.len(),
{
    lemma_lower_hex_shape(a);
    lemma_lower_hex_shape(b);
    if a.len() > 0 {
        let ha = lower_hex(a);
        let n = ha.len() as int;
        let pa = lower_hex(a.drop_last());
        let pb = lower_hex(b.drop_last());
        lemma_lower_hex_shape(a.drop_last());
        lemma_lower_hex_shape(b.drop_last());
        assert(ha[n - 2] == hex_digit((a.last() / 16) as nat));
        assert(ha[n - 1] == hex_digit((a.last() % 16) as nat));
        assert(lower_hex(b)[n - 2] == hex_digit((b.last() / 16) as nat));
        assert(lower_hex(b)[n - 1] == hex_digit((b.last() % 16) as nat));
        lemma_hex_digit_injective((a.last() / 16) as nat, (b.last() / 16) as nat);
        lemma_hex_digit_injective((a.last() % 16) as nat, (b.last() % 16) as nat);
        assert(a.last() == b.last());
        assert(pa =~= ha.subrange(0, n - 2));
        assert(pb =~= lower_hex(b).subrange(0, n - 2));
        lemma_lower_hex_injective(a.drop_last(), b.drop_last());
        assert(a =~= a.drop_last().push(a.last()));
        assert(b =~= b.drop_last().push(b.last()));
    } else {
        assert(b.len() == 0);
        assert(a =~= b);
    }
}

/// Agents whose keys differ get different ids: an id is its public key in hex,
/// and hex texts of different keys differ.
pub proof fn lemma_agent_ids_distinct(s1: Seq<u8>, s2: Seq<u8>)
    requires
        ed25519_public_key(s1) != ed25519_public_key(s2),
    ensures
        agent_id_of(s1) != agent_id_of(s2),
{
    if agent_id_of(s1) == agent_id_of(s2) {
        lemma_lower_hex_injective(ed25519_public_key(s1), ed25519_public_key(s2));
    }
}

} // verus!

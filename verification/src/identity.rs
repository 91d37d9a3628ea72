//! The node's persistent libp2p identity.
//!
//! An ed25519 keypair stored in protobuf encoding. It is generated on
//! first run and loaded thereafter; the peer id derived from it is the
//! node's stable identity on the network. Reading and writing the key
//! file is the caller's part; this module decides what the stored bytes
//! (or their absence) lead to.

use vstd::prelude::*;

verus! {

/// libp2p's keypair type, carried opaquely.
#[verifier::external_type_specification]
#[verifier::external_body]
pub struct ExKeypair(libp2p::identity::Keypair);

/// The keypair that `Keypair::from_protobuf_encoding` reads from the
/// bytes, or `None` where it refuses them. It depends on the bytes alone.
pub uninterp spec fn keypair_of(bytes: Seq<u8>) -> Option<libp2p::identity::Keypair>;

/// Calls `Keypair::from_protobuf_encoding`, keeping the keypair where the
/// bytes decode: the result is the name `keypair_of` applied to the bytes.
#[verifier::external_body]
pub(crate) fn keypair_from_bytes(bytes: &[u8]) -> (r: Option<libp2p::identity::Keypair>)
    ensures
        r == keypair_of(bytes@),
{
    libp2p::identity::Keypair::from_protobuf_encoding(bytes).ok()
}

/// Whether `Keypair::to_protobuf_encoding` succeeds on the keypair. It
/// depends on the keypair alone: the source refuses RSA keys and encodes
/// every other kind.
pub uninterp spec fn encodable(kp: libp2p::identity::Keypair) -> bool;

/// Calls `Keypair::to_protobuf_encoding`. Its source writes the key type
/// and the key bytes (for ed25519, the secret scalar and the public point)
/// from which `from_protobuf_encoding` rebuilds the same keypair, so an
/// encoding it produces decodes to the key it was made from.
#[verifier::external_body]
pub(crate) fn keypair_to_bytes(kp: &libp2p::identity::Keypair) -> (r: Option<Vec<u8>>)
    ensures
        r is Some <==> encodable(*kp),
        r matches Some(b) ==> keypair_of(b@) == Some(*kp),
{
    kp.to_protobuf_encoding().ok()
}

/// Calls `Keypair::generate_ed25519`, which draws a fresh random key.
/// Which key it is goes unsaid; its source builds an ed25519 key, which
/// `to_protobuf_encoding` always encodes.
#[verifier::external_body]
fn generate_keypair() -> (kp: libp2p::identity::Keypair)
    ensures
        encodable(kp),
{
    libp2p::identity::Keypair::generate_ed25519()
}

/// What loading the identity comes to.
pub enum IdentityStep {
    /// The stored key was decoded.
    Loaded(libp2p::identity::Keypair),
    /// No key was stored: a fresh one was generated; `encoded` is to be
    /// written to the key file.
    Generated { keypair: libp2p::identity::Keypair, encoded: Vec<u8> },
    /// The stored bytes are not a key ("decode persisted libp2p identity").
    DecodeFailed,
}

/// What loading may come to for the key file's contents `stored`: stored
/// bytes give the key they decode to, or `DecodeFailed` exactly when they
/// hold none; with no file, a fresh key together with an encoding that
/// decodes back to it.
pub open spec fn loading_yields(stored: Option<Vec<u8>>, r: IdentityStep) -> bool {
    match stored {
        Some(b) => match r {
            IdentityStep::Loaded(kp) => keypair_of(b@) == Some(kp),
            IdentityStep::DecodeFailed => keypair_of(b@) is None,
            _ => false,
        },
        None => match r {
            IdentityStep::Generated { keypair, encoded } => keypair_of(encoded@) == Some(keypair),
            _ => false,
        },
    }
}

/// Decide the identity from the key file's contents: stored bytes are
/// decoded (or refused); with no file, a fresh key is generated and its
/// encoding handed back for writing.
pub fn load_identity(stored: Option<Vec<u8>>) -> (r: IdentityStep)
    ensures
        loading_yields(stored, r),
{
    match stored {
        Some(bytes) => match keypair_from_bytes(bytes.as_slice()) {
            Some(kp) => IdentityStep::Loaded(kp),
            None => IdentityStep::DecodeFailed,
        },
        None => {
            let kp = generate_keypair();
            // A generated key always encodes, so the `None` arm is never taken.
            let encoded = match keypair_to_bytes(&kp) {
                Some(encoded) => encoded,
                None => Vec::new(),
            };
            IdentityStep::Generated { keypair: kp, encoded }
        },
    }
}

/// A stable identity: the encoding written for a freshly generated key
/// loads back as that same key, and so as the same peer id.
pub proof fn law_generated_identity_reloads(
    keypair: libp2p::identity::Keypair,
    encoded: Vec<u8>,
    reloaded: IdentityStep,
)
    requires
        loading_yields(None, IdentityStep::Generated { keypair, encoded }),
        loading_yields(Some(encoded), reloaded),
    ensures
        reloaded matches IdentityStep::Loaded(k) && k == keypair,
{
}

} // verus!

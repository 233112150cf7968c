//! Verified core of the ciruela image-synchronisation tool: image
//! signatures and the bytes they cover, the upload progress tracker and
//! upload decisions, the daemon's bookkeeping of peer connections and the
//! choice of hardlink sources.

mod text;

pub mod cbor;
pub mod ed25519;
pub mod hardlink;
pub mod keys;
pub mod progress;
pub mod remote;
pub mod sig_order;
pub mod signature;
pub mod upload;

pub use keys::{PrivateKey, PublicKey};
pub use signature::{sign, verify, Bytes, SigData, Signature, SignatureError, SignatureType};
pub use upload::is_conflict_reason;

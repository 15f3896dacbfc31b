//! The cryptographic card layer of Barnett–Smart mental poker over the Pallas
//! curve: card encoding, Schnorr and Chaum–Pedersen proofs, threshold ElGamal
//! masking and a cut-and-choose verifiable shuffle.

pub mod algebra;
pub mod card;
pub mod elgamal;
pub mod encode;
pub mod point;
pub mod scalar;
pub mod shuffle;
pub mod sigma;
pub mod transcript;

pub use card::{deck_array, Card, Rank, Suit, DECK_SIZE};
pub use elgamal::{
    AggregateKey, ElGamalCrypto, MaskedCard, MpError, PublicKey, RevealToken, SecretKey,
};
pub use encode::{decode_point, encode_point, point_key};
pub use point::Point;
pub use scalar::Scalar;
pub use shuffle::{prove, verify, ShuffleProof, ROUNDS};
pub use sigma::{generator, DleqProof, SchnorrProof};

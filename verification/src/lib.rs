//! A three-round distributed key generation engine for threshold signing.
//!
//! A fixed cohort of identities jointly derives one public key. Every member
//! commits to a secret polynomial, hands each peer a sealed value of it,
//! checks what it received against the published commitments and only then
//! derives the joint key. A member that is handed anything else than what
//! its peers made gives its session up and names the peer at fault.
//!
//! The way through the library:
//!
//! - [`identity`]: the registry that creates and releases key pairs;
//! - [`cohort`]: the frozen, ordered set of members of one run;
//! - [`participant`]: one member's session and its state;
//! - [`engine`]: the three rounds;
//! - [`artifacts`]: what the rounds hand from member to member;
//! - [`error`]: every failure, and its text;
//! - [`laws`]: what holds of every run, agreement on the key first of all.
//!
//! Below these stand the arithmetic ([`group`], [`order`]), the secret
//! sharing ([`polynomial`]), the proof of knowledge ([`knowledge`]), the
//! sealing of shares ([`sealing`]), the entropy that the caller supplies
//! ([`entropy`]) and the rendering of numbers ([`text`]).
//!
//! The library never reads a clock, a file or a random device. Entropy comes
//! in as an [`entropy::EntropyPool`]; with the same words a run gives the
//! same messages and the same key.
//!
//! The group has about two to the thirty-first elements. Every algebraic fact
//! that the protocol rests on is proved for it, down to the primality of its
//! order, and nothing here can keep a secret from an attacker with a laptop.

pub mod artifacts;
pub mod cohort;
pub mod engine;
pub mod entropy;
pub mod error;
pub mod group;
pub mod identity;
pub mod knowledge;
pub mod laws;
pub mod order;
pub mod participant;
pub mod polynomial;
pub mod sealing;
pub mod text;

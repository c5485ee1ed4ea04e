//! An encrypted vault of named records.
//!
//! A vault is an ordered sequence of records, each either the credentials of a
//! site or a named shell command. It is kept as one blob: a 16-byte
//! initialisation vector followed by the AES-256-CBC encryption of the binary
//! encoding of the sequence. Every operation of [`store::Store`] takes the
//! blob as it stands and, where it changes the vault, hands back the blob that
//! replaces it; reading and writing the file is left to the caller.
pub mod domain;
pub mod codec;
pub mod crypter;
pub mod vault;
pub mod store;

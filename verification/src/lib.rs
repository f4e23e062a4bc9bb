//! Password-protected image containers and additive image shares.
//!
//! A container is a byte stream, a fixed header followed by AES-256-GCM
//! ciphertext, laid out as the pixels of one or more raster images. Shares are
//! raster images whose channel-wise sum modulo 256 is the picture they hide.
//! Every function here works on values in memory; reading and writing files is
//! left to the caller.

pub mod chunks;
pub mod crypto;
pub mod decrypt;
pub mod encrypt;
pub mod error;
pub mod header;
pub mod image_ops;
pub mod merge;
pub mod numbering;
pub mod split;

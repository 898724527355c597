//! Byte-signature generation and matching for binary images.
//!
//! A signature is an ordered sequence of [`sigbyte::SigByte`] values: each
//! position either matches one fixed byte or is a wildcard that matches any
//! byte. Signatures locate a code site inside a flat byte image and can be
//! rendered to, and parsed from, two textual notations.

pub mod generate;
pub mod image;
pub mod linear_generate;
pub mod roundtrip;
pub mod scan;
pub mod sigbyte;

//! Core of a CRAM decoder: byte and varint primitives, the rANS 4x8 and
//! fqzcomp entropy codecs with matching encoders, typed-value
//! serialization, record and slice assembly with mate linkage, and
//! reference-sequence context tracking with the normalized reference
//! digest.

pub mod aac;
pub mod container;
pub mod digest;
pub mod error;
pub mod fqzcomp;
pub mod num;
pub mod position;
pub mod rans;
pub mod record;
pub mod refctx;
pub mod slice;
pub mod value;

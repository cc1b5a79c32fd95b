//! Slices web fonts into unicode-range subsets and builds the loader artifacts
//! that let a browser fetch only the subsets a page actually needs.
//!
//! The library covers the partitioning of a font's character base into ordered
//! buckets, the canonical `USpan`/`URange` representation, the varint+delta
//! codec that a tiny decoder expands back into `@font-face` CSS, the
//! content-addressed fingerprints that make builds incremental, and the byte
//! rewriting of the prebuilt decoder module.

pub mod builder;
pub mod codec;
pub mod css;
pub mod digest;
pub mod extern_specs;
pub mod history;
pub mod loader;
pub mod partition;
pub mod roundtrip;
pub mod routine;
pub mod tmpl;
pub mod unicode;
pub mod varint;
pub mod wasm;

use vstd::prelude::*;

verus! {

} // verus!

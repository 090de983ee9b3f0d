//! Render-and-cache pipeline for fenced diagram blocks.
//!
//! A document's text may hold fenced blocks of diagram source. Each block is
//! fingerprinted, resolved against a persistent cache (rendering through an
//! external service only on a miss), and replaced in the text by an image
//! reference; a block whose render fails is kept verbatim.

pub mod cache;
pub mod codec;
pub mod extract;
pub mod fingerprint;
pub mod pipeline;
pub mod rewrite;

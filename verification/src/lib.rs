//! Mining of localized text out of a game's binary asset files, and the
//! bit-packed save format shared by the tracker's programs.
//!
//! The text comes from two buffers. One holds the catalog: objects, the
//! entries below them and the facts of each entry, each with a stable id
//! ([`extract`], [`markup`], [`parse`], [`models`]). The other holds, for each
//! language, a table of raw translations whose keys are a display name and a
//! text run together ([`pipeline`]). The keys are cleaned of their prefixes
//! ([`reconcile`]), and each translation is handed to the ids that its text
//! belongs to ([`index`], [`fanout`]); ids that are left without translation
//! are listed ([`validate`]).

pub mod companion;
pub mod extract;
pub mod fanout;
pub mod index;
pub mod info;
pub mod markup;
pub mod models;
pub mod output;
pub mod parse;
pub mod pipeline;
pub mod reconcile;
pub mod saves;
pub mod server;
pub mod strmap;
pub mod text;
pub mod validate;

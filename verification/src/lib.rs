//! Verified core of a markdown-aware text editor.
//!
//! - [`document`], [`text`]: the document's lines, the selection, and the
//!   byte-level text primitives the scanners share.
//! - [`decoration`]: decorations and decoration sets.
//! - [`diagrams`], [`equations`], [`links`], [`tables`]: the markdown
//!   providers — fenced diagrams, math, wikilinks and vault links, pipe
//!   tables.
//! - [`autocomplete`]: candidate ranking and the popup state.
//! - [`overlay`]: where an agent diff's action rows anchor.
//! - [`mouse`]: the decisions of the mouse-button state machine.
//! - [`heights`], [`wrap`], [`measure`], [`texture_cache`]: what the painter
//!   derives from decorations and metrics, and its texture cache.
//! - [`languages`]: grammar bundles.

pub mod text;
pub mod document;
pub mod decoration;
pub mod diagrams;
pub mod equations;
pub mod links;
pub mod overlay;
pub mod autocomplete;
pub mod tables;
pub mod mouse;
pub mod texture_cache;
pub mod measure;
pub mod languages;
pub mod heights;
pub mod wrap;

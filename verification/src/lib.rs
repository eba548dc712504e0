//! Core of a static-site build pipeline for multilingual blog posts.
//!
//! A source file is split into per-language views by scanning for
//! `api_set_lang:` comment directives; each view's frontmatter block is
//! parsed into a validated key/value table that drives template-based
//! output paths, serialisation for the linker, and cache index lines.

pub mod custom_errors;
pub mod date;
pub mod fileapi;
pub mod frontmatter;
pub mod helpers;
pub mod linker;
pub mod post;
pub mod text;
pub mod traits;

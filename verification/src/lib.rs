//! Vernacular: a dead-simple localization library.
//!
//! Translation strings come from CSV and RON files under a content path:
//! root CSVs hold one column per locale, and each locale directory holds
//! per-locale CSV (`key,value`) and RON (`{"key": "value"}`) files. Within a
//! locale, CSVs are merged before RON files, each kind in file-name order, so
//! later files overwrite earlier ones. A key missing from the current locale
//! falls back to the fallback locale (`en_US` by default), and a key missing
//! from both is returned as it is.
use vstd::prelude::*;

pub mod text;
pub mod strmap;
pub mod model;
pub mod context;
pub mod error;
pub mod parsing;
pub mod source;
pub mod laws;

pub use context::VernacularContext;
pub use model::{TemplatePart, TranslationEntry};

verus! {

/// The default locale used when a key is missing from the active locale.
pub const FALLBACK_LOCALE: &'static str = "en_US";

} // verus!

//! Compile-time internationalization: turns a set of per-locale translation
//! files (key to template string) into a validated catalog, and derives from it
//! the shape of a typed accessor surface (one locale enum variant per locale,
//! one method per key, one wrapper type per placeholder name).

pub mod accessor;
pub mod axum;
pub mod catalog;
pub mod error;
pub mod placeholder_parsing;
pub mod schema;
pub mod strings;
pub mod utils;

use vstd::prelude::*;

verus! {

/// A source of locale-dependent values: given a language tag, hand back the
/// value that belongs to it. Implemented by users of the library; the request
/// middleware dispatches through it.
pub trait Internationalization {
    type Item;

    fn i(&self, lang: &str) -> Self::Item;
}

} // verus!

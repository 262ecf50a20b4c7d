//! Compact textual notation for editor cursor and selection state.
//!
//! An annotated string such as `foo<$0>bar` or `foo<$0>bar</$0>` describes a
//! plain text together with a set of selection regions.  A start marker
//! `<$N>` (with `N` a decimal identifier) marks a caret or the start of a
//! range; an end marker `</$N>` marks the end of the range with the same
//! identifier.  Parsing strips the markers and records one region per start
//! identifier, with offsets expressed in the stripped content; rendering
//! re-inserts markers, numbering regions by their rank in the selection.
//!
//! Offsets throughout the crate are code-point (char) offsets into the
//! content, not byte offsets.

pub mod digits;
pub mod laws;
pub mod region;
pub mod scan;
pub mod state;

pub use region::SelRegion;
pub use region::Selection;
pub use state::ParseError;
pub use state::TestState;


//! Lint metadata gathered from declaration macros, the text generated from
//! it, and replacement of delimited regions in line-oriented text.
pub mod extract;
pub mod generate;
pub mod lint;
pub mod pattern;
pub mod region;
pub mod text;

pub use extract::{gather_all, parse_contents};
pub use generate::{gen_changelog_lint_list, gen_deprecated};
pub use lint::{Lint, DOCS_LINK};
pub use region::{has_region_start, replace_region_in_text};

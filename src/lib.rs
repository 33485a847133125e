//! Ranking of short labels (file paths, buffer names) against a partially
//! typed query, for an interactive "jump to item" picker.
//!
//! The library is made of five layers:
//! - [`text`]: character classes, UTF-8 widths and the rules of normalization;
//! - [`norm`]: owned normalized text, and a normalizing view of a raw query;
//! - [`pattern`]: the normalized query and label types and the right-to-left
//!   contiguous-run matcher;
//! - [`score`]: reduction of one matcher's outcomes to a bucket, a score and
//!   the matched byte ranges;
//! - [`rank`]: scoring of a whole candidate snapshot and its bucketed sort.
pub mod text;
pub mod norm;
pub mod pattern;
pub mod score;
pub mod rank;

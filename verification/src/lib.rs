//! Counting of lines, words, characters and bytes in byte sources, and the
//! aligned tabular report of those counts.
//!
//! [`count_buf`] counts one source held in memory, and
//! [`CountResult::add_segment`] counts a source that is read segment by
//! segment. [`format_summary`] lays the results of several sources out as a
//! table, with a row of totals where there is more than one source.

pub mod cli;
pub mod count;
pub mod counter;
pub mod mode;
pub mod numeral;
pub mod summary;
pub mod text;

pub use cli::{interpret_args, Invocation};
pub use count::CountResult;
pub use counter::{count_buf, BufferDetails, CountError};
pub use mode::{canonical_order, Mode};
pub use summary::{format_summary, sum_results, totals_fit};
pub use text::{count_text, TextCounts};

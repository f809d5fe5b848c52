//! ANSI terminal handling: an output buffer for terminal bytes, and an
//! in-memory page model that accumulates clipped drawing operations on
//! rows kept as append logs of span records, normalises them into a
//! canonical left-to-right form and finds the changes between two pages.

use vstd::prelude::*;

pub mod glyph;
pub mod page;
pub mod row;
pub mod scan;
pub mod terminal;
pub mod termout;

pub use page::{Page, Region};
pub use row::{Change, SpanRec};
pub use terminal::{arm_force_timer, consume_input, Flush, InputStep, Session};
pub use termout::{Features, TermOut};

verus! {

} // verus!

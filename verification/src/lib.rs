//! Watching agent runs and rendering what they did: the stuck-run monitor,
//! the helpers around external programs, and the text of charts and reports.

pub mod text;
pub mod registry;
pub mod monitor;
pub mod process;
pub mod chart;
pub mod report;

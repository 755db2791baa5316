//! A call-stack profiler engine: it turns a stream of depth-tagged call and
//! return events into per-function call counts, total time and self time.

pub mod budget;
pub mod clock;
pub mod entry;
pub mod frame;
pub mod host;
pub mod laws;
pub mod model;
pub mod name;
pub mod profiler;
pub mod recorder;
pub mod report;
pub mod unwinding;
pub mod recursion;

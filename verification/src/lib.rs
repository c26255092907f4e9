//! Time-aligned series for throughput plots.
//!
//! A recording holds, per data stream, a sparse sequence of timestamped
//! cumulative byte counters. This library decides, from the timestamps alone,
//! how those recordings map onto a uniform time grid, how several streams add
//! up on a shared grid, and how a cumulative series turns into a rate series.
//!
//! Sample values never enter the library. Every result says where each of its
//! values comes from: which sample of which series, with which interpolation
//! weight. The caller applies that description to the values it holds.

pub mod aggregate;
pub mod grid;
pub mod layout;
pub mod rates;
pub mod resample;
pub mod result;
pub mod throughput;

pub use crate::aggregate::{sample_times, sum_bytes, SumPoint, SumSample, Term};
pub use crate::grid::{ceil_to_grid, floor_to_grid, grid_times};
pub use crate::layout::{
    charts, default_height, has_part, latency_runs, loss_mark, max_total_latency, shade, Chart,
    LatencyPart, Loss, Run, Shade, Shown,
};
pub use crate::rates::{can_rate, to_rates, Rate, RateSample};
pub use crate::resample::{interpolate, GridSample, Source};
pub use crate::result::{
    RawLatency, RawPing, RawResult, RawStreamGroup, RunError, TestResult, TestStream,
    TestStreamGroup,
};
pub use crate::throughput::{Line, Part, Throughput};

//! A hierarchical scope profiler: how long named stretches of code take, on
//! any number of threads, merged into one table.
//!
//! Each thread keeps a log of the scopes it enters and leaves
//! ([`profiler`], [`zz_private`], [`measure`]). When the threads are done,
//! the logs come together in a registry ([`profiler`]). For the report, each
//! log is rebuilt into a forest of scopes ([`tree`], [`forest`]), each forest
//! is flattened into rows in pre-order ([`flatten`]), the rows of all threads
//! are merged by key ([`rows`], [`aggregate`], [`timing`]) and the table is
//! drawn ([`table`], [`text`], [`report`]).
//!
//! What holds of every log and every table is proved in [`counting`],
//! [`coverage`], [`totals`], [`nesting`], [`shares`] and [`order`].

pub mod aggregate;
pub mod clock;
pub mod counting;
pub mod coverage;
pub mod flat;
pub mod flatten;
pub mod forest;
pub mod measure;
pub mod nesting;
pub mod order;
pub mod ordered_map;
pub mod profiler;
pub mod report;
pub mod rows;
pub mod shares;
pub mod table;
pub mod text;
pub mod timing;
pub mod totals;
pub mod tree;
pub mod zz_private;

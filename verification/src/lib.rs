//! Query engine for continuous-integration build histories.
//!
//! The library decides which builds of a job match a caller-supplied
//! set of parameter filters.  A build carries a heterogeneous list of
//! actions; string-typed parameters are extracted from it and compared,
//! key by key, against the filter.  Three scan modes are offered: the
//! first matching build, every matching build, and a lookup by build
//! number.  Fetching the build list from the server, resolving each
//! build and printing results are left to the binary around the
//! library; the engine works on plain values handed to it.

pub mod builds;
pub mod matcher;
pub mod params;

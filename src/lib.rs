//! Embeddable analytical data engine: a registry of numeric series addressed
//! by integer handles, with filtering, sorting, grouping, membership and
//! statistics operators over them.
//!
//! Float64 data is carried as IEEE-754 binary64 bit patterns (`u64`), so that
//! every decision the engine takes on such data (nullness, ordering, minimum,
//! maximum, counting) is stated and proved on plain integers. Floating-point
//! arithmetic (sums, means, deviations) is supplied by the caller.
pub mod registry;
pub mod float_bits;
pub mod statistics;
pub mod series;
pub mod filtering;
pub mod sorting;
pub mod keys;
pub mod membership;
pub mod groupby;

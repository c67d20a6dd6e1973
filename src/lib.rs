//! Benchmarking of public DNS resolvers: the measurement plan, the per-provider
//! test sequence, the reduction of raw samples to summary statistics, and the
//! ranking of providers.

pub mod plan;
pub mod summary;
pub mod tester;
pub mod ranking;

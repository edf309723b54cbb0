//! A TCP load balancer core: a pool of backend servers with per-backend
//! availability, round-robin selection that skips unavailable backends,
//! request-boundary detection for the relay, and the startup decision that
//! drops invalid backend entries and refuses an empty pool.

pub mod pool;
pub mod relay;

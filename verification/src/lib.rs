//! A fixed-size worker thread pool, modelled and verified as a state machine.
//!
//! The pool owns a fixed set of workers that share one FIFO queue of
//! messages.  A message either carries a job or tells a worker to stop.
//! `pool` holds the verified core: the queue discipline, the worker state
//! machine, and the shutdown protocol that claims every submitted job
//! before the last worker stops.  `http` holds the small request-routing
//! helpers used by the surrounding server.

pub mod http;
pub mod pool;

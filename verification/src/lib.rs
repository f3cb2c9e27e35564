//! An in-process multi-producer, multi-polling-consumer broadcast carousel.
//!
//! Producers submit byte payloads; every registered consumer receives every
//! payload, in submission order, on its own delivery lane. The `asynch`
//! module holds the delivery engine: the event envelope, the fan-out and
//! polling decisions, and a verified sequential engine whose contracts pin
//! down exactly what every consumer observes. The `mp2c` module holds the
//! envelope and consumer interface of a single-channel variant in which
//! pollers compete for one shared receive end.

pub mod asynch;
pub mod mp2c;

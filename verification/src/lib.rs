//! Synchronisation state and transport codecs of a decentralised,
//! append-only, content-addressed drive.

pub mod ids;
pub mod model;
pub mod order;
pub mod order_laws;
pub mod runtime;
pub mod seal;
pub mod seal_laws;
pub mod serving;
pub mod serving_laws;
pub mod sorted;
pub mod transport;

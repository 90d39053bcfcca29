//! Telemetry ingestion over a small MQTT-style broker path: frame codec,
//! per-connection protocol state machine, payload envelope resolution,
//! a bounded fan-out queue and the append-only store format.

pub mod codec;
pub mod stream;
pub mod device;
pub mod envelope;
pub mod connection;
pub mod store;
pub mod bus;

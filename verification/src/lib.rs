//! Relay of live voice-activity events to websocket subscribers.
//!
//! A per-room [`tracker::Receiver`] turns raw presence signals into
//! deduplicated activity events; the [`server::WebsocketServer`] fans each
//! event out to every subscriber currently registered for its room, with
//! bounded per-subscriber queues and dead-peer eviction.

pub mod codec;
pub mod commands;
pub mod events;
pub mod registry;
pub mod server;
pub mod tracker;

pub mod event;
pub mod lists;
pub mod messages;
pub mod network;
pub mod node;
pub mod position;
pub mod route;
mod rng;
pub mod sensornetwork;

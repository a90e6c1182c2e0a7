//! Atlas: a shared-memory I/O service for many storage-engine instances.
pub mod batch;
pub mod client;
pub mod executor;
pub mod pipeline;
pub mod priority_order;
pub mod protocol;
pub mod scheduler;
pub mod service;
pub mod spsc;

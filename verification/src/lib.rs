//! A persistent energy-usage record store.
//!
//! The crate builds a small storage stack, leaf first: a page-granular
//! growable byte region ([`page_store::PageStore`]), a memory manager that
//! multiplexes that region into disjoint logical segments
//! ([`memory_manager::MemoryManager`]), a durable counter cell persisted in
//! one segment ([`id_cell::IdCell`]), an ordered key-to-bytes map persisted
//! in another segment ([`record_map::RecordMap`]), a bounded-size record
//! codec ([`record`]), and a service that ties them together
//! ([`service::StorageCore`]).

pub mod errors;
pub mod id_cell;
pub mod memory_manager;
pub mod page_store;
pub mod record;
pub mod record_map;
pub mod recommend;
pub mod service;

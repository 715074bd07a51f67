//! In-memory read-side accelerator for an account store.
//!
//! The crate centres on a sharded primary index of account records with an
//! advisory owner index, a query layer (filtering, pagination, top-by-balance
//! fast paths), a change feed with per-subscriber bounded queues, and the
//! codec used by the optional distributed overflow tier.

pub mod account;
pub mod codec;
pub mod dispatch;
pub mod feed;
pub mod frame;
pub mod filter;
pub mod index;
pub mod ingest;
pub mod sort;

//! Core of a host daemon that binds physical USB devices to running
//! virtual machines. Per-VM vendor/product filter rules arrive as
//! commands over an IPC bus; hardware hotplug notifications arrive from
//! the host's device-management subsystem. A single-threaded reactor
//! serializes both streams, keeps the filter registry and the
//! attachment bookkeeping consistent, and plans the hypervisor
//! attach/detach calls, which the surrounding binary performs.
//!
//! Everything here is pure state and decision logic: the IPC transport,
//! the hotplug monitor and the hypervisor connection live outside this
//! crate and exchange plain values with it.

pub mod filter;
pub mod identity;
pub mod reactor;
pub mod registry;
pub mod tracker;
pub mod views;
pub mod xml;

//! Tiled and multi-monitor output groups: the decisions behind joining two to four physical
//! displays into one logical output.
//!
//! The host owns devices, renderers and the event loop. This crate owns the output domain model:
//! which displays form a group, how they are laid out and paced, which requests drive them, and
//! what becomes of every frame, failure and event. Points in time and durations are nanoseconds,
//! device objects are their handles, and floating-point settings are their bit patterns.
//!
//! [`frame`], [`native`] and [`planning`] gather what a host uses; the other modules hold the
//! definitions together with what they are specified and proved to do.

pub mod bits;
pub mod commit;
pub mod crtc;
pub mod device;
pub mod elements;
pub mod failure;
pub mod flip;
pub mod formats;
pub mod frame;
pub mod gamma;
pub mod group;
pub mod journal;
pub mod layout;
pub mod lists;
pub mod modes;
pub mod names;
pub mod native;
pub mod pair;
pub mod pending;
pub mod plan;
pub mod planning;
pub mod props;
pub mod refresh;
pub mod request;
pub mod retirement;
pub mod selection;
pub mod submission;
pub mod text;
pub mod tile;
pub mod tiled;
pub mod tiling;

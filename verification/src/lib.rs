//! A host for game scripts compiled to WebAssembly.
//!
//! A guest module imports a small set of `kami:engine/*` functions, exports
//! `init` and any number of `<name>-tick` systems, and is driven against an
//! in-memory entity store. Everything the host decides is verified here; the
//! engines that run the guest are `wasmtime` and `wasmi`.

pub mod accuracy;
pub mod big;
pub mod binary32;
pub mod calls;
pub mod decimal;
pub mod ecs;
pub mod error;
pub mod exports;
pub mod game;
pub mod guest;
pub mod host;
pub mod imports;
pub mod laws;
pub mod leb;
pub mod lifecycle;
pub mod motion;
pub mod particles;
pub mod picture;
pub mod player;
pub mod queries;
pub mod reading;
pub mod report;
pub mod rng;
pub mod scene;
pub mod state;
pub mod text;
pub mod wasmi_engine;
pub mod wasmi_host;
pub mod wasmtime_engine;

pub use crate::ecs::{EcsStore, Entity};
pub use crate::error::RuntimeError;
pub use crate::exports::ordered_tick_exports;
pub use crate::host::KamiHost;
pub use crate::leb::read_uleb;
pub use crate::state::HostState;
pub use crate::wasmi_host::KamiHostWasmi;


//! A frecency index of opened files and the selection menu that goes with it.

pub mod error;
pub mod launch;
pub mod menu;
pub mod model;
pub mod path;
pub mod rank;
pub mod store;
pub mod text;

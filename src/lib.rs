//! Menu flow of a small game front end: application states, the menu scene
//! graph built on entering a menu and torn down on leaving it, the per-frame
//! button reducer, and the license gate that runs before any of it.

pub mod state;
pub mod scene;
pub mod license;
pub mod controller;

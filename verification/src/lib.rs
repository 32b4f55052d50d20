//! Verified core of a clipboard-history and screenshot-annotation tool.

pub mod capture;
pub mod clipview;
pub mod hooks;
pub mod hotkey;
pub mod icon;
pub mod monitor;
pub mod raster;
pub mod screens;
pub mod shapes;
pub mod search;
pub mod store;
pub mod text;
pub mod tools;

//! The parts of the Matterless window that decide things: where the reader has
//! been, when a picture moves on to its next frame, what a menu or a list of
//! names does with a keystroke, how the picture pack lays out its bytes.
//!
//! Drawing, windows and files are left to the program around this library; it
//! hands plain values in and takes plain values back.

pub mod input;
pub mod menu;
pub mod menus;
pub mod moving;
pub mod offer;
pub mod open;
pub mod pack;
pub mod picker;
pub mod places;
pub mod profile;
pub mod rail;
pub mod rest;
pub mod session;
pub mod sidebar;
pub mod text;

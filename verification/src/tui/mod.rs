//! The pure parts of the terminal interface: what it shows and what it accepts.
pub mod input;
pub mod ui;

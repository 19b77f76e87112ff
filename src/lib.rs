//! Derives a sixteen-slot terminal colorscheme from the pixels of an image.

pub mod text;
pub mod color;
pub mod hsv;
pub mod order;
pub mod backends;
pub mod config;
pub mod rwal;
pub mod flag;
pub mod preview;
pub mod help;

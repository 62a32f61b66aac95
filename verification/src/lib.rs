//! Vector document viewing in a terminal: the parts that decide and compute.
pub mod backend;
pub mod cells;
pub mod codec;
pub mod config;
pub mod copy;
pub mod encoding;
pub mod framebuffer;
pub mod help;
pub mod keys;
pub mod kitty;
pub mod marks;
pub mod page;
pub mod path;
pub mod raster;
pub mod session;
pub mod sixel;
pub mod source;
pub mod svg;
pub mod terminal;
pub mod text;
pub mod typst;
pub mod view;
pub mod worker;

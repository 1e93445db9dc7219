//! Drawing, pixel-encoding and transfer planning for an ILI9486-class SPI LCD panel.
pub mod app;
pub mod bus;
pub mod canvas;
pub mod delta;
pub mod framebuffer;
pub mod gpio;
pub mod panel;
pub mod render;
pub mod sysinfo;
pub mod text;

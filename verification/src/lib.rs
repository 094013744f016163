pub mod checksum;
pub mod encode;
pub mod framebuffer;
pub mod line;
pub mod rasterizer;
pub mod scanline;

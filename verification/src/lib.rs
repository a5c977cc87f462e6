//! Frame drawing and frame-to-frame fading for a small generative-art
//! renderer, over `image` buffers.

pub mod pixels;
pub mod frame;
pub mod draw_tools;
pub mod utils;
pub mod user;

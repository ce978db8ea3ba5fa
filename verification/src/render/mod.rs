//! Showing the picture: what the renderers share.
//!
//! The decoder hands over pictures in the GPU's own memory, and a renderer's job is to get them
//! onto the screen without ever copying them through system memory. Every backend draws the same
//! two things over the picture, the statistics panel and the cursor, as bitmaps with
//! premultiplied alpha. What differs between them is the drawing API; what is here does not know
//! which one it is feeding.

use vstd::prelude::*;

pub mod arrow;
pub mod hud;
pub mod pacing;
pub mod planes;

verus! {

/// Reason a picture could not be drawn.
#[derive(Debug, Clone, PartialEq, Eq)]
pub enum RenderError {
    /// No GPU was available, or it refused to create something the renderer needs.
    Setup {
        /// What went wrong.
        reason: &'static str,
    },
    /// The shader source failed to compile.
    Shader {
        /// What the compiler reported.
        message: String,
    },
    /// A decoded picture could not be bound as a texture.
    Bind {
        /// Platform status code.
        status: i32,
    },
}

} // verus!

//! The halftone engine: dot patterns, and the screens that threshold a tone
//! grid against them.

pub mod dot;
pub mod sample;
pub mod screentone_add;
pub mod utils_halftone;

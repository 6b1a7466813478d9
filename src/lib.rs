//! Re-themes terminal emulator configuration files.
//!
//! A [`Theme`] maps colour roles (`color0`, `foreground`, ...) to [`RGBA`]
//! values. Each module under [`apps`] holds the line grammar of one family of
//! configuration files and a `convert_colors` function that rewrites the
//! colour literals of the lines it recognises, leaving every other character
//! of the text as it was.
pub mod apps;
pub mod color;
pub mod text;
pub mod theme;


pub use color::{Alpha, ColorEntry, RGBA};
pub use theme::{AppError, Theme};

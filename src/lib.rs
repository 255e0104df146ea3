//! Parsing and regeneration of Mach-O containers (thin and fat) over
//! untrusted bytes, with the small utilities the engine is built from.

pub mod util;
pub mod codec;
pub mod region;
pub mod header;
pub mod model;
pub mod walker;
pub mod macho;
pub mod symbols;
pub mod archname;
pub mod fat;
pub mod rewrite;

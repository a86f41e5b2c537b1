pub mod draw;
pub mod read_crapmap;

pub use read_crapmap::Pixel;

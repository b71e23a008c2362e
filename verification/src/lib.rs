//! A skyline-based 2D bin packer: places rectangular textures into a single
//! atlas, keeping an ordered free-space contour (the skyline) and committing
//! each placement by a split-and-merge update of that contour.

pub mod config;
pub mod frame;
pub mod packer;
pub mod rect;
pub mod texture;
pub mod texture_packer;

pub use config::TexturePackerAlrogithm;
pub use config::TexturePackerConfig;
pub use frame::Frame;
pub use packer::skyline_packer::SkylinePacker;
pub use rect::Rect;
pub use texture::MemoryTexture;
pub use texture::Texture;
pub use texture_packer::TexturePacker;

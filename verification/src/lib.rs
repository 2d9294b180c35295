//! Codec for a binary texture-container format: parsing the pointer-based
//! container, converting four packed pixel encodings to and from canonical
//! 8-bit-per-channel RGBA rasters, and the bookkeeping for pairing canonical
//! images with their metadata sidecars.

pub mod bridge;
pub mod codec;
pub mod container;
pub mod pixel;
pub mod raster;
pub mod pixel_format;

pub use bridge::{hex_id, plan_assembly, DirEntry};
pub use codec::{read_texture_data, TextureDataArgs};
pub use container::{
    read_texture_package, write_texture_package, Texture, TextureHeader, TextureMeta,
    TexturePackage, TexturePackageHeaderRaw,
};
pub use pixel_format::data_size;
pub use pixel_format::TexError;
pub use pixel_format::TextureFormat;
pub use raster::Raster;

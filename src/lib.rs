//! Building a voxel grid in memory and serializing it as a Sponge schematic
//! (version 2): palette interning, a sparse block store with an online
//! bounding box, the dense varint-encoded block stream, and the NBT document.

pub mod document;
pub mod palette;
pub mod schematic;
pub mod varint;

pub use document::{SaveError, TagValue};
pub use palette::{Palette, MAX_PALETTE};
pub use schematic::{Coords, MCSchematic};
pub use varint::Varint;

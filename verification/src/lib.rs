//! In-place rewriting of UUIDs in the files of a Minecraft-style world:
//! text buffers, NBT documents and Anvil region images.

pub mod anvil;
pub mod bytes;
pub mod codec;
pub mod mapping;
pub mod nbt;
pub mod nbt_laws;
pub mod remap;
pub mod task;
pub mod text;
pub mod text_laws;

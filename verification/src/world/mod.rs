//! The world: blocks, chunks and levels.
pub mod chunk;
pub mod level;
pub mod packing;
pub mod palette;
pub mod section;

pub use self::chunk::{LevelChunk, LightSection};
pub use self::level::{Level, Task, TaskClosure, TaskSchedule};
pub use self::palette::{BiomePalettedContainer, BlockPalettedContainer, PalettedContainer};
pub use self::section::ChunkSection;

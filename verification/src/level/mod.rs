//! The level: the runtime tile grid and room tags ([`map`]), the generation
//! pipeline ([`source`] orchestrating [`noise`], [`rooms`] and [`connect`]),
//! and the wall-facing test used when turning tiles into meshes ([`render`]).

pub mod map;
pub mod noise;
pub mod connect;
pub mod route;
pub mod rooms;
pub mod source;
pub mod render;
pub mod reach;

pub use map::{LevelMap, Room, RoomId, RoomKind, SpawnPoint, Tile, TileRect, MAP_HEIGHT, MAP_WIDTH};

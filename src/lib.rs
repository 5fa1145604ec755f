pub mod enemy;
pub mod geometry;
pub mod path;
pub mod spawner;
pub mod tower;
pub mod world;

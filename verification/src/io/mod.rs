pub mod config;
pub mod blocks;
pub mod stack;
pub mod bring_up;
pub mod adopt;
pub mod pnp;
pub mod driver;
pub mod irp;
pub mod start;
pub mod tree;
pub mod dealings;

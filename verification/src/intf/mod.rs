pub mod interface;
pub mod process;
pub mod system;

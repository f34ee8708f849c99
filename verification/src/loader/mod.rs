pub mod elf;
pub mod image;
pub mod layout;
pub mod loader;
pub mod pointers;
pub mod user_loader;
pub mod user_pointers;
pub mod module;
pub mod load;
pub mod descriptor;

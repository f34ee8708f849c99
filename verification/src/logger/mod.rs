pub mod kring;
pub mod route;
pub mod console;
pub mod serial_logger;
pub mod framebuffer_logger;
pub mod typesetting;

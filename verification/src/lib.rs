pub mod error;
pub mod util;
pub mod loader;
pub mod mem;
pub mod io;
pub mod sync;
pub mod sched;
pub mod logger;
pub mod registry;
pub mod object;
pub mod pipe;
pub mod intf;
pub mod shutdown;

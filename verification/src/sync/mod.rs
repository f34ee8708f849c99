pub mod lock;
pub mod once;
pub mod semaphore;

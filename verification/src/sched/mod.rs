pub mod task;
pub mod queue;
pub mod scheduler;
pub mod handle;
pub mod proc;
pub mod cleanup;
pub mod ending;
pub mod lives;
pub mod waiting;
pub mod timer;
pub mod user;
pub mod answers;
pub mod tick;
pub mod syscall;
pub mod file_call;
pub mod memory_call;
pub mod pipe_call;
pub mod init;

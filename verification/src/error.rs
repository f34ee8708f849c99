use vstd::prelude::*;

verus! {

/// Why a kernel operation was refused.
#[derive(Clone, Copy, Debug, PartialEq, Eq, Structural)]
pub enum KError {
    InvalidArgument,
    OutOfMemory,
    NotFound,
    FileBusy,
    FileExists,
    WaitTimedOut,
    WaitInterrupted,
    WaitFailed,
    Unsupported,
    DeviceStopped,
    DeviceStarted,
    DeviceRemoved,
    ProcessTerminated,
    ProcessInitFailed,
    CircularDependency,
    ModuleNotDriver,
    DriverLoadFailed,
}

} // verus!

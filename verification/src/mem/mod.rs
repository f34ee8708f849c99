pub mod block;
pub mod frame_allocator;
pub mod virtual_allocator;
pub mod manager;
pub mod accounts;
pub mod fixed_allocator;
pub mod fixed_list;
pub mod heap_allocator;
pub mod pool_allocator;
pub mod physical_allocator;

//! The privileged core of a small secure runtime: a tagged-blob filesystem on
//! NOR flash, the contexts that share the processor, and the syscalls through
//! which unprivileged code reaches both.

pub mod argbuf;
pub mod constants;
pub mod context;
pub mod context_ll;
pub mod contextallocator;
pub mod emulator;
pub mod ffi;
pub mod filename;
pub mod flash;
pub mod flash_ll;
pub mod format;
pub mod fs;
pub mod hashset;
pub mod memory;
pub mod mpu;
pub mod mpu_ll;
pub mod ram;
pub mod registers;
pub mod syscall;
pub mod tools;

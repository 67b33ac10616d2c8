//! The verified core of a teaching kernel's synchronisation and system-call logic.
pub mod banker;
pub mod mutex;
pub mod process;
pub mod semaphore;
pub mod trace;
pub mod fs;

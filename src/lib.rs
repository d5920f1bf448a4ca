//! Parsing and selection logic of a small "top"-like memory monitor that
//! samples the Linux `/proc` tree: the system memory summary, the resident
//! memory and name of each process, and the processes that use the most
//! memory.
pub mod meminfo;
pub mod presenter;
pub mod process;
pub mod text;

pub use meminfo::{MemInfo, MemInfoError};
pub use presenter::{sort_by_memory, top_processes};
pub use process::{
    is_pid, list_processes_from, parse_process_status, read_process, ProcessRecord, ScannedEntry,
};

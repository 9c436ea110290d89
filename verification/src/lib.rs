//! rinit: the verified core of a small init system (PID 1).

pub mod text;
pub mod types;
pub mod deps;
pub mod net;
pub mod process;
pub mod supervisor;
pub mod uevent;
pub mod fs;
pub mod cgroup;
pub mod tty;
pub mod login;
pub mod catalog;

//! Plain values of the version-control system: ids, commits, branches, the
//! repository capability, and the script of commands.
pub mod branch;
pub mod bytes;
pub mod commit;
pub mod oid;
pub mod replay;
pub mod repo;
pub mod script;

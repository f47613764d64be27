pub mod banker;
pub mod efs;
pub mod sync;
pub mod vfs;

//! pltzfs: a compressed filesystem prototype that keeps inodes, directory
//! entries, file data and the free-block bitmap on separate platters, each
//! compressed independently with PLTZ.
pub mod dir;
pub mod inode;
pub mod storage;
pub mod fs;

//! What the library knows of a storage backend: the objects it lists, the
//! entries that are shown for them, and the rules by which each kind of backend
//! is spoken to. Backends see keys only.

pub mod entries;
pub mod nfs;
pub mod s3;
pub mod sftp;
pub mod smb;
pub mod stream;
pub mod tree;

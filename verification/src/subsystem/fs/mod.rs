pub mod ext2;
pub mod inode;
pub mod mounts;
pub mod tmpfs;

use vstd::prelude::*;
use crate::subsystem::fs::inode::{FsError, FsResult};

verus! {

/// A file system that names inodes by path.
pub trait FileSystem: Sized {
    /// Whether the file system is consistent.
    spec fn fs_wf(&self) -> bool;

    /// The inode that `open` gives for `path`.
    spec fn open_result(&self, path: Seq<u8>) -> FsResult<usize>;

    /// Whether there is room for one more inode.
    spec fn can_create(&self) -> bool;

    /// Whether `create` of `path` may leave `after` and return `r`.
    spec fn create_spec(&self, path: Seq<u8>, after: Self, r: FsResult<usize>) -> bool;

    /// The root directory.
    fn root(&self) -> usize;

    fn open(&self, path: &[u8]) -> (r: FsResult<usize>)
        requires
            self.fs_wf(),
        ensures
            r == self.open_result(path@),
    ;

    fn create(&mut self, path: &[u8]) -> (r: FsResult<usize>)
        requires
            old(self).fs_wf(),
            old(self).can_create(),
        ensures
            final(self).fs_wf(),
            old(self).create_spec(path@, *final(self), r),
    ;

    fn create_file(&mut self, path: &[u8]) -> (r: FsResult<()>)
        ensures
            true,
        default_ensures
            r == Err::<(), FsError>(FsError::Unsupported),
    {
        Err(FsError::Unsupported)
    }

    fn remove_file(&mut self, path: &[u8]) -> (r: FsResult<()>)
        ensures
            true,
        default_ensures
            r == Err::<(), FsError>(FsError::Unsupported),
    {
        Err(FsError::Unsupported)
    }

    fn create_directory(&mut self, path: &[u8]) -> (r: FsResult<()>)
        ensures
            true,
        default_ensures
            r == Err::<(), FsError>(FsError::Unsupported),
    {
        Err(FsError::Unsupported)
    }

    fn remove_directory(&mut self, path: &[u8]) -> (r: FsResult<()>)
        ensures
            true,
        default_ensures
            r == Err::<(), FsError>(FsError::Unsupported),
    {
        Err(FsError::Unsupported)
    }
}

} // verus!

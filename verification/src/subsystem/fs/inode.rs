use vstd::prelude::*;
use crate::subsystem::fs::tmpfs::{InodeDirectory, InodeFile};
use crate::utils::string::KString;

verus! {

pub const PERMISSION_READ: u8 = 4;
pub const PERMISSION_WRITE: u8 = 2;
pub const PERMISSION_EXECUTE: u8 = 1;

#[derive(Debug, Clone, Copy, PartialEq, Eq, Structural)]
pub enum FsError {
    /// Operation is not supported.
    Unsupported,
    /// Desired target does not exist.
    NoExist,
    /// No space for the desired resource on the device.
    NoSpace,
    /// Bad metadata for the device being read.
    BadMeta,
    /// Nothing more to read.
    EndOfFile,
}

pub type FsResult<T> = Result<T, FsError>;

/// Operations on the contents of an inode. What an implementation does not support fails with
/// `Unsupported`.
pub trait InodeOperations {
    fn read(&self, offset: u64, buffer: &mut Vec<u8>) -> (r: FsResult<usize>)
        ensures
            r is Ok ==> r->Ok_0 <= old(buffer)@.len(),
            final(buffer)@.len() == old(buffer)@.len(),
        default_ensures
            r == Err::<usize, FsError>(FsError::Unsupported),
            final(buffer)@ == old(buffer)@,
    {
        Err(FsError::Unsupported)
    }

    fn write(&mut self, offset: u64, buffer: &[u8]) -> (r: FsResult<usize>)
        ensures
            r is Ok ==> r->Ok_0 <= buffer@.len(),
        default_ensures
            r == Err::<usize, FsError>(FsError::Unsupported),
    {
        Err(FsError::Unsupported)
    }
}

/// Facts about an inode other than its contents.
pub struct InodeMeta {
    /// Unique identifier for the inode.
    pub uid: u64,
    /// RWX permissions for the inode.
    pub permissions: u8,
    /// Number of bytes this inode represents.
    pub file_size: u64,
}

/// What an inode holds.
pub enum InodeContents {
    File(InodeFile),
    Directory(InodeDirectory),
}

/// A file system object.
pub struct Inode {
    pub meta: InodeMeta,
    pub operations: InodeContents,
}

/// A name in a directory and the inode it names, by its number in the file system.
pub struct InodeDirectoryEntry {
    pub name: KString,
    pub inode: usize,
}

impl InodeDirectoryEntry {
    pub fn new(name: &[u8], inode: usize) -> (r: Self)
        ensures
            r.name@ == name@,
            r.inode == inode,
    {
        InodeDirectoryEntry { name: KString::from_bytes(name), inode }
    }

    pub fn name(&self) -> (r: &[u8])
        ensures
            r@ == self.name@,
    {
        self.name.as_bytes()
    }

    pub fn inode(&self) -> (r: usize)
        ensures
            r == self.inode,
    {
        self.inode
    }

    /// A copy of this entry.
    pub fn duplicate(&self) -> (r: Self)
        ensures
            r.name@ == self.name@,
            r.inode == self.inode,
    {
        InodeDirectoryEntry::new(self.name.as_bytes(), self.inode)
    }
}

impl Inode {
    pub open spec fn wf(&self) -> bool {
        match self.operations {
            InodeContents::File(f) => f.wf(),
            InodeContents::Directory(_) => true,
        }
    }

    pub fn new(operations: InodeContents) -> (r: Self)
        ensures
            r.meta.uid == 0,
            r.meta.permissions == PERMISSION_READ | PERMISSION_WRITE,
            r.meta.file_size == 0,
            r.operations == operations,
    {
        Inode {
            meta: InodeMeta { uid: 0, permissions: PERMISSION_READ | PERMISSION_WRITE, file_size: 0 },
            operations,
        }
    }

    pub fn meta(&self) -> (r: &InodeMeta)
        ensures
            *r == self.meta,
    {
        &self.meta
    }

    pub fn contents(&self) -> (r: &InodeContents)
        ensures
            *r == self.operations,
    {
        &self.operations
    }

    /// Reads the contents of a file; other inodes do not support it.
    pub fn read(&self, offset: u64, buffer: &mut Vec<u8>) -> (r: FsResult<usize>)
        requires
            self.wf(),
        ensures
            self.operations is Directory ==> r == Err::<usize, FsError>(FsError::Unsupported) && final(buffer)@
                == old(buffer)@,
            self.operations is File ==> (r is Ok && r->Ok_0 <= old(buffer)@.len()),
            final(buffer)@.len() == old(buffer)@.len(),
    {
        match &self.operations {
            InodeContents::File(f) => {
                proof {
                    f.lemma_read_bound(offset, old(buffer)@.len() as int);
                }
                f.read(offset, buffer)
            },
            InodeContents::Directory(_) => Err(FsError::Unsupported),
        }
    }

    /// Writes the contents of a file; other inodes do not support it.
    pub fn write(&mut self, offset: u64, buffer: &[u8]) -> (r: FsResult<usize>)
        requires
            old(self).wf(),
        ensures
            final(self).wf(),
            old(self).operations is Directory ==> r == Err::<usize, FsError>(FsError::Unsupported),
            old(self).operations is File ==> r is Ok || r == Err::<usize, FsError>(FsError::NoSpace),
    {
        match &mut self.operations {
            InodeContents::File(f) => f.write_checked(offset, buffer),
            InodeContents::Directory(_) => Err(FsError::Unsupported),
        }
    }

    /// The entries of a directory; other inodes do not support it.
    pub fn list_directory(&self) -> (r: FsResult<Vec<InodeDirectoryEntry>>)
        ensures
            self.operations is File ==> r == Err::<Vec<InodeDirectoryEntry>, FsError>(FsError::Unsupported),
            self.operations matches InodeContents::Directory(d) ==> (r matches Ok(v) && v@.len()
                == d.children@.len() && forall|i: int| 0 <= i < v@.len() ==> (#[trigger] v@[i]).name@
                == d.children@[i].name@ && v@[i].inode == d.children@[i].inode),
    {
        match &self.operations {
            InodeContents::File(_) => Err(FsError::Unsupported),
            InodeContents::Directory(d) => Ok(d.list_directory()),
        }
    }

    /// Adds a file entry `name` naming inode `inode` to a directory.
    pub fn create_file(&mut self, name: &[u8], inode: usize) -> (r: FsResult<()>)
        requires
            old(self).wf(),
        ensures
            final(self).wf(),
            old(self).operations is File ==> r == Err::<(), FsError>(FsError::Unsupported) && *final(self) == *old(self),
            old(self).operations matches InodeContents::Directory(d) ==> (r is Ok && (final(self).operations matches InodeContents::Directory(nd)
                && nd.children@.len() == d.children@.len() + 1 && nd.children@.last().name@ == name@
                && nd.children@.last().inode == inode && forall|i: int| 0 <= i < d.children@.len() ==> #[trigger] nd.children@[i] == d.children@[i])),
    {
        match &mut self.operations {
            InodeContents::File(_) => Err(FsError::Unsupported),
            InodeContents::Directory(d) => {
                d.create_file(name, inode);
                Ok(())
            },
        }
    }

    /// Adds an entry `name` naming an inode with given contents to a directory.
    pub fn create_file_with_ops(&mut self, name: &[u8], inode: usize) -> (r: FsResult<()>)
        requires
            old(self).wf(),
        ensures
            final(self).wf(),
            old(self).operations is File ==> r == Err::<(), FsError>(FsError::Unsupported),
            old(self).operations is Directory ==> r is Ok,
    {
        self.create_file(name, inode)
    }

    /// Adds a directory entry `name` naming inode `inode` to a directory.
    pub fn create_directory(&mut self, name: &[u8], inode: usize) -> (r: FsResult<()>)
        requires
            old(self).wf(),
        ensures
            final(self).wf(),
            old(self).operations is File ==> r == Err::<(), FsError>(FsError::Unsupported),
            old(self).operations is Directory ==> r is Ok,
    {
        self.create_file(name, inode)
    }
}

} // verus!

use vstd::prelude::*;
use crate::subsystem::fs::inode::{FsError, FsResult};
use crate::subsystem::fs::FileSystem;
use crate::utils::string::bytes_starts_with;

verus! {

/// Whether `s` starts with `prefix`.
pub open spec fn starts_with(s: Seq<u8>, prefix: Seq<u8>) -> bool {
    prefix.len() <= s.len() && s.subrange(0, prefix.len() as int) == prefix
}

/// A file system mounted at a path.
pub struct MountTableEntry<F: FileSystem> {
    pub fs: F,
    pub path: Vec<u8>,
}

impl<F: FileSystem> MountTableEntry<F> {
    pub fn fs(&self) -> (r: &F)
        ensures
            *r == self.fs,
    {
        &self.fs
    }
}

/// Position of the first mount whose path starts with `path`, at or after `i`.
pub open spec fn mount_with_prefix<F: FileSystem>(mounts: Seq<MountTableEntry<F>>, path: Seq<u8>, i: int) -> Option<int>
    decreases mounts.len() - i,
{
    if i < 0 || i >= mounts.len() {
        None
    } else if starts_with(mounts[i].path@, path) {
        Some(i)
    } else {
        mount_with_prefix(mounts, path, i + 1)
    }
}

/// Position of the first mount whose path `path` starts with, at or after `i`.
pub open spec fn mount_for<F: FileSystem>(mounts: Seq<MountTableEntry<F>>, path: Seq<u8>, i: int) -> Option<int>
    decreases mounts.len() - i,
{
    if i < 0 || i >= mounts.len() {
        None
    } else if starts_with(path, mounts[i].path@) {
        Some(i)
    } else {
        mount_for(mounts, path, i + 1)
    }
}

pub proof fn lemma_mount_for(mounts: Seq<MountTableEntry<impl FileSystem>>, path: Seq<u8>, i: int)
    ensures
        mount_for(mounts, path, i) matches Some(k) ==> i <= k < mounts.len() && starts_with(path, mounts[k].path@),
    decreases mounts.len() - i,
{
    if 0 <= i < mounts.len() && !starts_with(path, mounts[i].path@) {
        lemma_mount_for(mounts, path, i + 1);
    }
}

/// The file systems by where they are mounted, the latest first.
pub struct MountTable<F: FileSystem> {
    pub mounts: Vec<MountTableEntry<F>>,
    pub root: usize,
}

impl<F: FileSystem> MountTable<F> {
    pub open spec fn wf(&self) -> bool {
        forall|i: int| 0 <= i < self.mounts@.len() ==> (#[trigger] self.mounts@[i]).fs.fs_wf()
    }

    /// A table with `root_fs` mounted at `/`; its root is the root of `root_fs`.
    pub fn new(root_fs: F) -> (r: Self)
        requires
            root_fs.fs_wf(),
        ensures
            r.wf(),
            r.mounts@.len() == 1,
            r.mounts@[0].path@ == seq![0x2fu8],
            r.mounts@[0].fs == root_fs,
    {
        let root = root_fs.root();
        let mut mounts: Vec<MountTableEntry<F>> = Vec::new();
        let mut slash: Vec<u8> = Vec::new();
        slash.push(0x2f);
        mounts.push(MountTableEntry { fs: root_fs, path: slash });
        MountTable { mounts, root }
    }

    /// The root inode.
    pub fn root(&self) -> (r: usize)
        ensures
            r == self.root,
    {
        self.root
    }

    /// The first mount whose path starts with `path`.
    pub fn lookup_mount(&self, path: &[u8]) -> (r: Option<usize>)
        ensures
            r == (match mount_with_prefix(self.mounts@, path@, 0) {
                Some(k) => Some(k as usize),
                None => None::<usize>,
            }),
    {
        let mut i: usize = 0;
        while i < self.mounts.len()
            invariant
                i <= self.mounts@.len(),
                mount_with_prefix(self.mounts@, path@, 0) == mount_with_prefix(self.mounts@, path@, i as int),
            decreases self.mounts@.len() - i,
        {
            if bytes_starts_with(self.mounts[i].path.as_slice(), path) {
                return Some(i);
            }
            i += 1;
        }
        None
    }

    /// Mounts `fs` at `path`, in front of the others; no mount may already match `path`.
    pub fn mount(&mut self, path: &[u8], fs: F)
        requires
            old(self).wf(),
            fs.fs_wf(),
            mount_with_prefix(old(self).mounts@, path@, 0) is None,
        ensures
            final(self).wf(),
            final(self).root == old(self).root,
            final(self).mounts@.len() == old(self).mounts@.len() + 1,
            final(self).mounts@[0].fs == fs,
            final(self).mounts@[0].path@ == path@,
            final(self).mounts@.skip(1) == old(self).mounts@,
    {
        let mut copy: Vec<u8> = Vec::new();
        let mut i: usize = 0;
        while i < path.len()
            invariant
                i <= path@.len(),
                copy@ == path@.subrange(0, i as int),
            decreases path@.len() - i,
        {
            copy.push(path[i]);
            i += 1;
            assert(copy@ =~= path@.subrange(0, i as int));
        }
        assert(copy@ =~= path@);
        self.mounts.insert(0, MountTableEntry { fs, path: copy });
        assert(self.mounts@.skip(1) =~= old(self).mounts@);
    }

    /// Position of the mount that serves `path`.
    fn mount_index(&self, path: &[u8]) -> (r: Option<usize>)
        ensures
            r matches Some(k) ==> mount_for(self.mounts@, path@, 0) == Some(k as int),
            r is None ==> mount_for(self.mounts@, path@, 0) is None,
            r matches Some(k) ==> k < self.mounts@.len() && starts_with(path@, self.mounts@[k as int].path@),
    {
        proof {
            lemma_mount_for(self.mounts@, path@, 0);
        }
        let mut i: usize = 0;
        while i < self.mounts.len()
            invariant
                i <= self.mounts@.len(),
                mount_for(self.mounts@, path@, 0) == mount_for(self.mounts@, path@, i as int),
            decreases self.mounts@.len() - i,
        {
            if bytes_starts_with(path, self.mounts[i].path.as_slice()) {
                return Some(i);
            }
            i += 1;
        }
        None
    }

    /// Opens `path` in the first mount whose path it starts with, without that prefix.
    pub fn open(&self, path: &[u8]) -> (r: FsResult<usize>)
        requires
            self.wf(),
        ensures
            match mount_for(self.mounts@, path@, 0) {
                None => r == Err::<usize, FsError>(FsError::NoExist),
                Some(k) => r == self.mounts@[k].fs.open_result(path@.skip(self.mounts@[k].path@.len() as int)),
            },
    {
        match self.mount_index(path) {
            Some(k) => {
                let prefix_len = self.mounts[k].path.len();
                let rest = &path[prefix_len..path.len()];
                assert(rest@ == path@.skip(prefix_len as int));
                self.mounts[k].fs.open(rest)
            },
            None => Err(FsError::NoExist),
        }
    }

    /// Creates `path` in the first mount whose path it starts with, without that prefix.
    pub fn create(&mut self, path: &[u8]) -> (r: FsResult<usize>)
        requires
            old(self).wf(),
            forall|i: int| 0 <= i < old(self).mounts@.len() ==> (#[trigger] old(self).mounts@[i]).fs.can_create(),
        ensures
            final(self).wf(),
            final(self).root == old(self).root,
            final(self).mounts@.len() == old(self).mounts@.len(),
            forall|i: int| 0 <= i < old(self).mounts@.len() ==> (#[trigger] final(self).mounts@[i]).path@ == old(self).mounts@[i].path@,
            mount_for(old(self).mounts@, path@, 0) is None ==> r == Err::<usize, FsError>(FsError::NoExist)
                && final(self).mounts@ == old(self).mounts@,
            mount_for(old(self).mounts@, path@, 0) matches Some(k) ==> forall|i: int| 0 <= i < old(self).mounts@.len() && i != k
                ==> #[trigger] final(self).mounts@[i] == old(self).mounts@[i],
            mount_for(old(self).mounts@, path@, 0) matches Some(k) ==> old(self).mounts@[k].fs.create_spec(
                path@.skip(old(self).mounts@[k].path@.len() as int),
                final(self).mounts@[k].fs,
                r,
            ),
    {
        match self.mount_index(path) {
            Some(k) => {
                let prefix_len = self.mounts[k].path.len();
                let rest = &path[prefix_len..path.len()];
                let mut entry = self.mounts.remove(k);
                let r = entry.fs.create(rest);
                self.mounts.insert(k, entry);
                proof {
                    assert forall|i: int| 0 <= i < self.mounts@.len() implies (#[trigger] self.mounts@[i]).fs.fs_wf() by {
                        if i != k {
                            assert(self.mounts@[i] == old(self).mounts@[i]);
                        }
                    }
                    assert forall|i: int| 0 <= i < old(self).mounts@.len() && i != k implies #[trigger] self.mounts@[i]
                        == old(self).mounts@[i] by {}
                }
                r
            },
            None => Err(FsError::NoExist),
        }
    }
}

} // verus!

use vstd::prelude::*;

use crate::discovery::SLASH;

verus! {

/// The buffer ceiling where the memory of the machine cannot be read.
pub const DEFAULT_MAX_BUFFER_SIZE: u64 = 512 * 1024 * 1024;

/// A mounted disk, as far as the space check needs it.
pub struct DiskInfo {
    /// The disk's mount point, made canonical; `None` where that failed.
    pub mount_point: Option<Vec<u8>>,
    /// The bytes free on the disk.
    pub available_space: u64,
}

/// The memory of the machine, in bytes.
#[derive(Debug, Copy, Clone, PartialEq, Eq, Structural)]
pub struct MemoryInfo {
    pub total: u64,
    pub available: u64,
}

/// Why the free space could not be checked. None of these is fatal: the
/// caller goes on at its own risk.
#[derive(Debug, Copy, Clone, PartialEq, Eq, Structural)]
pub enum SpaceWarning {
    /// The platform cannot list its disks.
    Unsupported,
    /// The directory could not be made canonical.
    UnresolvedPath,
    /// No disk holds the directory.
    NoMatchingDisk,
    /// No disk was found to hold the directory, and the mount point of at
    /// least one could not be made canonical.
    UnreadableMountPoint,
}

impl SpaceWarning {
    /// A description of the warning.
    pub fn message(&self) -> (r: &'static str)
        ensures
            r@ == match self {
                SpaceWarning::Unsupported => {
                    "unable to check if there is enough free disk space for this operation"@
                },
                SpaceWarning::UnresolvedPath => "couldn't canonicalise file path"@,
                SpaceWarning::NoMatchingDisk => {
                    "unable to determine disk being used to check space"@
                },
                SpaceWarning::UnreadableMountPoint => {
                    "unable to check space in appropriate disk"@
                },
            },
    {
        match self {
            SpaceWarning::Unsupported => {
                "unable to check if there is enough free disk space for this operation"
            },
            SpaceWarning::UnresolvedPath => "couldn't canonicalise file path",
            SpaceWarning::NoMatchingDisk => "unable to determine disk being used to check space",
            SpaceWarning::UnreadableMountPoint => "unable to check space in appropriate disk",
        }
    }
}

/// The canonical path `path` lies under `base`: `base` is `path` itself or
/// one of its ancestors, compared component by component.
pub open spec fn path_starts_with(path: Seq<u8>, base: Seq<u8>) -> bool {
    ||| base.len() == 0
    ||| {
        &&& base.len() <= path.len()
        &&& path.subrange(0, base.len() as int) == base
        &&& (path.len() == base.len() || base.last() == SLASH || path[base.len() as int] == SLASH)
    }
}

/// The disk holds `directory`.
pub open spec fn disk_holds(disk: DiskInfo, directory: Seq<u8>) -> bool {
    match disk.mount_point {
        Some(m) => path_starts_with(directory, m@),
        None => false,
    }
}

/// The length of the disk's mount point, zero where it is unknown.
pub open spec fn mount_len(disk: DiskInfo) -> nat {
    match disk.mount_point {
        Some(m) => m@.len(),
        None => 0,
    }
}

/// Disk `i` is the one that contains `directory`: of the disks whose mount
/// point is an ancestor of the directory, it has the longest mount point,
/// and it is the first listed with that length.
pub open spec fn is_containing_disk(disks: Seq<DiskInfo>, directory: Seq<u8>, i: int) -> bool {
    &&& 0 <= i < disks.len()
    &&& disk_holds(disks[i], directory)
    &&& forall|j: int|
        0 <= j < disks.len() && disk_holds(#[trigger] disks[j], directory) ==> mount_len(disks[j])
            <= mount_len(disks[i])
    &&& forall|j: int|
        0 <= j < i && disk_holds(#[trigger] disks[j], directory) ==> mount_len(disks[j])
            < mount_len(disks[i])
}

fn starts_with(path: &[u8], base: &[u8]) -> (r: bool)
    ensures
        r == path_starts_with(path@, base@),
{
    if base.len() == 0 {
        return true;
    }
    if base.len() > path.len() {
        return false;
    }
    let mut i: usize = 0;
    while i < base.len()
        invariant
            base@.len() <= path@.len(),
            i <= base@.len(),
            path@.subrange(0, i as int) == base@.subrange(0, i as int),
        decreases base@.len() - i,
    {
        if path[i] != base[i] {
            proof {
                assert(path@.subrange(0, base@.len() as int)[i as int] == path@[i as int]);
            }
            return false;
        }
        i = i + 1;
        proof {
            assert(path@.subrange(0, i as int) =~= path@.subrange(0, i - 1).push(path@[i - 1]));
            assert(base@.subrange(0, i as int) =~= base@.subrange(0, i - 1).push(base@[i - 1]));
        }
    }
    proof {
        assert(base@.subrange(0, base@.len() as int) =~= base@);
    }
    path.len() == base.len() || base[base.len() - 1] == SLASH || path[base.len()] == SLASH
}

/// Whether the disk that contains `directory` has more than `space_needed`
/// bytes free. `supported` says whether the platform can list its disks,
/// `directory` is the canonical directory (`None` where it could not be made
/// canonical) and `disks` the mounted disks. The disk checked is the one
/// whose mount point is the longest ancestor of the directory, so that a
/// directory on a disk mounted below `/` is not checked against `/`.
pub fn sufficient_disk_space(
    supported: bool,
    directory: Option<&[u8]>,
    disks: &Vec<DiskInfo>,
    space_needed: u64,
) -> (r: Result<bool, SpaceWarning>)
    ensures
        !supported ==> r == Err::<bool, SpaceWarning>(SpaceWarning::Unsupported),
        supported && directory is None ==> r == Err::<bool, SpaceWarning>(
            SpaceWarning::UnresolvedPath,
        ),
        supported && directory is Some ==> if exists|j: int|
            0 <= j < disks@.len() && disk_holds(#[trigger] disks@[j], directory->Some_0@) {
            exists|i: int|
                is_containing_disk(disks@, directory->Some_0@, i) && r == Ok::<bool, SpaceWarning>(
                    (#[trigger] disks@[i]).available_space > space_needed,
                )
        } else if exists|j: int| 0 <= j < disks@.len() && (#[trigger] disks@[j]).mount_point is None {
            r == Err::<bool, SpaceWarning>(SpaceWarning::UnreadableMountPoint)
        } else {
            r == Err::<bool, SpaceWarning>(SpaceWarning::NoMatchingDisk)
        },
{
    if !supported {
        return Err(SpaceWarning::Unsupported);
    }
    let dir = match directory {
        Some(d) => d,
        None => {
            return Err(SpaceWarning::UnresolvedPath);
        },
    };
    let mut unreadable = false;
    let mut best: Option<usize> = None;
    let mut best_len: usize = 0;
    let mut i: usize = 0;
    while i < disks.len()
        invariant
            supported,
            directory == Some(dir),
            i <= disks@.len(),
            best is None ==> forall|j: int| 0 <= j < i ==> !disk_holds(#[trigger] disks@[j], dir@),
            best matches Some(b) ==> {
                &&& b < i
                &&& disk_holds(disks@[b as int], dir@)
                &&& best_len == mount_len(disks@[b as int])
                &&& forall|j: int|
                    0 <= j < i && disk_holds(#[trigger] disks@[j], dir@) ==> mount_len(disks@[j])
                        <= best_len
                &&& forall|j: int|
                    0 <= j < b && disk_holds(#[trigger] disks@[j], dir@) ==> mount_len(disks@[j])
                        < best_len
            },
            unreadable <==> exists|j: int|
                0 <= j < i && (#[trigger] disks@[j]).mount_point is None,
        decreases disks@.len() - i,
    {
        let disk = &disks[i];
        match &disk.mount_point {
            Some(mount) => {
                if starts_with(dir, mount.as_slice()) {
                    let better = match best {
                        None => true,
                        Some(_) => mount.len() > best_len,
                    };
                    if better {
                        best = Some(i);
                        best_len = mount.len();
                    }
                }
            },
            None => {
                unreadable = true;
            },
        }
        i = i + 1;
    }
    match best {
        Some(b) => {
            proof {
                assert(is_containing_disk(disks@, dir@, b as int));
            }
            Ok(disks[b].available_space > space_needed)
        },
        None => {
            if unreadable {
                Err(SpaceWarning::UnreadableMountPoint)
            } else {
                Err(SpaceWarning::NoMatchingDisk)
            }
        },
    }
}

/// The most memory that a transfer buffer may take: an eighth of the total
/// memory or half of the available memory, whichever is less; a fixed
/// ceiling where the memory cannot be read.
pub fn max_buffer_size(memory: Option<MemoryInfo>) -> (r: u64)
    ensures
        r == match memory {
            Some(m) => if m.total / 8 <= m.available / 2 {
                m.total / 8
            } else {
                m.available / 2
            },
            None => DEFAULT_MAX_BUFFER_SIZE,
        },
{
    match memory {
        Some(m) => {
            let eighth = m.total / 8;
            let half = m.available / 2;
            if eighth <= half {
                eighth
            } else {
                half
            }
        },
        None => DEFAULT_MAX_BUFFER_SIZE,
    }
}

/// The size of the transfer buffer: the requested size, held to `ceiling`
/// and to what a `usize` can count.
pub fn choose_buffer_size(requested: u64, ceiling: u64) -> (r: usize)
    ensures
        r as int == vstd::math::min(
            vstd::math::min(requested as int, ceiling as int),
            usize::MAX as int,
        ),
{
    let size = if requested <= ceiling {
        requested
    } else {
        ceiling
    };
    if size as u128 > usize::MAX as u128 {
        usize::MAX
    } else {
        size as usize
    }
}

} // verus!

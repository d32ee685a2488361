use chopstick::budget::{choose_buffer_size, DiskInfo, MemoryInfo, SpaceWarning};
use chopstick::{max_buffer_size, sufficient_disk_space, ChunkCursor};

fn disk(mount: Option<&str>, available: u64) -> DiskInfo {
    DiskInfo {
        mount_point: mount.map(|m| m.as_bytes().to_vec()),
        available_space: available,
    }
}

#[test]
fn disk_space() {
    let disks = vec![disk(Some("/home"), 10), disk(Some("/"), 1000)];
    assert_eq!(sufficient_disk_space(true, Some("/home/u".as_bytes()), &disks, 5), Ok(true));
    assert_eq!(sufficient_disk_space(true, Some("/home/u".as_bytes()), &disks, 10), Ok(false));
    assert_eq!(sufficient_disk_space(true, Some("/homework".as_bytes()), &disks, 10), Ok(true));
    assert_eq!(sufficient_disk_space(true, Some("/home".as_bytes()), &disks, 9), Ok(true));
}

#[test]
fn disk_space_warnings() {
    let disks = vec![disk(None, 10), disk(Some("/mnt"), 1000)];
    assert_eq!(
        sufficient_disk_space(false, Some("/mnt".as_bytes()), &disks, 5),
        Err(SpaceWarning::Unsupported)
    );
    assert_eq!(
        sufficient_disk_space(true, None, &disks, 5),
        Err(SpaceWarning::UnresolvedPath)
    );
    assert_eq!(
        sufficient_disk_space(true, Some("/srv".as_bytes()), &disks, 5),
        Err(SpaceWarning::UnreadableMountPoint)
    );
    assert_eq!(
        sufficient_disk_space(true, Some("/srv".as_bytes()), &vec![disk(Some("/mnt"), 1000)], 5),
        Err(SpaceWarning::NoMatchingDisk)
    );
    assert_eq!(
        sufficient_disk_space(true, Some("/mnt/a".as_bytes()), &disks, 5),
        Ok(true)
    );
    assert!(!SpaceWarning::NoMatchingDisk.message().is_empty());
}

#[test]
fn buffer_sizes() {
    let memory = MemoryInfo {
        total: 8000,
        available: 1000,
    };
    assert_eq!(max_buffer_size(Some(memory)), 500);
    let memory = MemoryInfo {
        total: 800,
        available: 1000,
    };
    assert_eq!(max_buffer_size(Some(memory)), 100);
    assert_eq!(max_buffer_size(None), 512 * 1024 * 1024);
    assert_eq!(choose_buffer_size(20, 500), 20);
    assert_eq!(choose_buffer_size(2000, 500), 500);
}

#[test]
fn chunks() {
    let mut cursor = ChunkCursor::new(10, 35);
    assert_eq!(cursor.bytes_left(), 25);
    assert_eq!(cursor.next_chunk(10), Some(10));
    assert_eq!(cursor.next_chunk(10), Some(10));
    assert_eq!(cursor.next_chunk(10), Some(5));
    assert_eq!(cursor.next_chunk(10), None);
    assert_eq!(cursor.bytes_left(), 0);
    cursor.seek_to(30);
    assert_eq!(cursor.next_chunk(100), Some(5));
    let mut empty = ChunkCursor::new(4, 4);
    assert_eq!(empty.next_chunk(1), None);
}

#[test]
fn disk_space_longest_mount_point() {
    let disks = vec![disk(Some("/"), 1000), disk(Some("/home"), 10), disk(Some("/ho"), 1000)];
    assert_eq!(sufficient_disk_space(true, Some("/home/u".as_bytes()), &disks, 50), Ok(false));
    assert_eq!(sufficient_disk_space(true, Some("/home/u".as_bytes()), &disks, 5), Ok(true));
    assert_eq!(sufficient_disk_space(true, Some("/srv".as_bytes()), &disks, 50), Ok(true));
    let disks = vec![disk(Some("/"), 1000), disk(Some("/h"), 1)];
    assert_eq!(sufficient_disk_space(true, Some("/h/u".as_bytes()), &disks, 5), Ok(false));
}

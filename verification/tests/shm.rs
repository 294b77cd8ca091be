use ringfire::shm::{BackingFile, FileAsk, FileEvent, FileId};
use ringfire::{
    BlobProducer, CleanupMode, Ring, RingConsumer, RingProducer, RingProducerBuilder,
    RingfireError,
};

/// A file: its length and whether somebody holds its lock.
#[derive(Clone, Copy)]
struct Inode {
    len: u64,
    locked: bool,
}

/// One path, and the files that it has named.
struct Disk {
    inodes: Vec<Inode>,
    named: Option<usize>,
}

impl Disk {
    fn new() -> Self {
        Disk { inodes: Vec::new(), named: None }
    }

    fn id(inode: usize) -> FileId {
        FileId { device: 1, inode: inode as u64 }
    }

    /// Creates the backing file of a producer, and says which file it is.
    fn create(&mut self, exclusive_lock: bool, size: u64) -> Result<usize, RingfireError> {
        let mut creation = BackingFile::start(exclusive_lock, size);
        let mut ask = creation.ask;
        let mut open = 0;
        let mut mine = false;
        loop {
            let event = match ask {
                FileAsk::OpenTruncated | FileAsk::Open => {
                    if mine {
                        self.inodes[open].locked = false;
                        mine = false;
                    }
                    open = match self.named {
                        Some(i) => i,
                        None => {
                            self.inodes.push(Inode { len: 0, locked: false });
                            self.inodes.len() - 1
                        }
                    };
                    self.named = Some(open);
                    if ask == FileAsk::OpenTruncated {
                        self.inodes[open].len = 0;
                    }
                    FileEvent::Opened
                }
                FileAsk::Lock => {
                    let held = !self.inodes[open].locked;
                    if held {
                        self.inodes[open].locked = true;
                        mine = true;
                    }
                    FileEvent::Locked { held }
                }
                FileAsk::Compare => FileEvent::Compared {
                    open: Disk::id(open),
                    len: self.inodes[open].len,
                    current: self.named.map(Disk::id),
                },
                FileAsk::Unlink => {
                    self.named = None;
                    FileEvent::Unlinked
                }
                FileAsk::Resize { size } => {
                    self.inodes[open].len = size;
                    FileEvent::Resized
                }
                FileAsk::Done => return Ok(open),
            };
            ask = creation.step(event)?;
        }
    }

    /// The producer of a file goes away.
    fn close(&mut self, inode: usize, mode: CleanupMode) {
        if mode == CleanupMode::UnlinkOnDrop {
            self.named = None;
        }
        self.inodes[inode].locked = false;
    }
}

fn push(p: &mut RingProducer<u64>, ring: &mut Ring<u64>, item: u64) {
    p.push(ring, item);
}

#[test]
fn r3_second_create_leaves_live_ring_alone() {
    let mut disk = Disk::new();
    let (mut producer, mut ring) = RingProducer::<u64>::create(1024).unwrap();
    let file = disk.create(true, ring.len as u64).unwrap();
    let mut consumer = RingConsumer::<u64>::attach(&mut ring, 1, &[1]).unwrap();
    let before = disk.inodes[file].len;
    let (_, second) = RingProducer::<u64>::create(1024).unwrap();
    assert!(matches!(
        disk.create(true, second.len as u64),
        Err(RingfireError::ProducerAlreadyExists)
    ));
    let (_, blob) = BlobProducer::<u64>::create(64, 4096).unwrap();
    assert!(matches!(
        disk.create(true, blob.ring.len as u64),
        Err(RingfireError::ProducerAlreadyExists)
    ));
    assert_eq!(disk.inodes[file].len, before);
    assert_eq!(disk.named, Some(file));
    push(&mut producer, &mut ring, 7);
    assert_eq!(consumer.try_recv(&mut ring), Some(7));
}

#[test]
fn r3b_stale_ring_replaced_not_truncated() {
    let mut disk = Disk::new();
    let (mut old, mut old_ring) =
        RingProducerBuilder::new(16).cleanup_mode(CleanupMode::Persistent).build::<u64>().unwrap();
    let old_file = disk.create(true, old_ring.len as u64).unwrap();
    push(&mut old, &mut old_ring, 1);
    let mut orphan = RingConsumer::<u64>::attach(&mut old_ring, 1, &[1]).unwrap();
    disk.close(old_file, old.cleanup_mode);

    let (mut fresh, mut ring) = RingProducer::<u64>::create(16).unwrap();
    let file = disk.create(true, ring.len as u64).unwrap();
    assert_ne!(file, old_file);
    assert_eq!(disk.inodes[old_file].len, old_ring.len as u64);
    push(&mut fresh, &mut ring, 100);
    assert_eq!(orphan.try_recv(&mut old_ring), Some(1));
    assert_eq!(orphan.try_recv(&mut old_ring), None);
    let mut new_reader = RingConsumer::<u64>::attach(&mut ring, 1, &[1]).unwrap();
    assert_eq!(new_reader.try_recv(&mut ring), Some(100));
}

#[test]
fn test_exclusive_producer_file_locking() {
    let mut disk = Disk::new();
    let (p1, ring) = RingProducer::<u64>::create(1024).unwrap();
    let file = disk.create(true, ring.len as u64).unwrap();
    assert!(disk.create(true, ring.len as u64).is_err());
    disk.close(file, p1.cleanup_mode);
    assert!(disk.create(true, ring.len as u64).is_ok());
}

fn compared(len: u64, same: bool) -> FileEvent {
    let open = FileId { device: 1, inode: 10 };
    FileEvent::Compared {
        open,
        len,
        current: Some(if same { open } else { FileId { device: 1, inode: 11 } }),
    }
}

#[test]
fn fresh_file_is_locked_then_sized() {
    let mut f = BackingFile::start(true, 4096);
    assert_eq!(f.ask, FileAsk::Open);
    assert_eq!(f.step(FileEvent::Opened).unwrap(), FileAsk::Lock);
    assert_eq!(f.step(FileEvent::Locked { held: true }).unwrap(), FileAsk::Compare);
    assert_eq!(f.step(compared(0, true)).unwrap(), FileAsk::Resize { size: 4096 });
    assert_eq!(f.step(FileEvent::Resized).unwrap(), FileAsk::Done);
}

#[test]
fn live_ring_is_left_alone() {
    let mut f = BackingFile::start(true, 4096);
    f.step(FileEvent::Opened).unwrap();
    assert!(matches!(
        f.step(FileEvent::Locked { held: false }),
        Err(RingfireError::ProducerAlreadyExists)
    ));
}

#[test]
fn stale_ring_is_replaced_by_a_fresh_file() {
    let mut f = BackingFile::start(true, 64);
    f.step(FileEvent::Opened).unwrap();
    f.step(FileEvent::Locked { held: true }).unwrap();
    assert_eq!(f.step(compared(4096, true)).unwrap(), FileAsk::Unlink);
    assert_eq!(f.step(FileEvent::Unlinked).unwrap(), FileAsk::Open);
    f.step(FileEvent::Opened).unwrap();
    f.step(FileEvent::Locked { held: true }).unwrap();
    assert_eq!(f.step(compared(0, true)).unwrap(), FileAsk::Resize { size: 64 });
}

#[test]
fn eight_replaced_paths_end_the_creation() {
    let mut f = BackingFile::start(true, 64);
    for round in 1..=8 {
        f.step(FileEvent::Opened).unwrap();
        f.step(FileEvent::Locked { held: true }).unwrap();
        let r = if round % 2 == 0 {
            f.step(compared(0, false))
        } else {
            f.step(FileEvent::Compared {
                open: FileId { device: 1, inode: 10 },
                len: 0,
                current: None,
            })
        };
        if round < 8 {
            assert_eq!(r.unwrap(), FileAsk::Open);
        } else {
            assert!(matches!(r, Err(RingfireError::ProducerAlreadyExists)));
        }
    }
}

#[test]
fn without_a_lock_the_file_is_truncated_in_place() {
    let mut f = BackingFile::start(false, 100);
    assert_eq!(f.ask, FileAsk::OpenTruncated);
    assert_eq!(f.step(FileEvent::Opened).unwrap(), FileAsk::Resize { size: 100 });
    assert_eq!(f.step(FileEvent::Resized).unwrap(), FileAsk::Done);
}

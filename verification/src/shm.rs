//! Creation of shared memory backing files.
//!
//! With an exclusive lock, the file is locked *before* anything is modified, so a second
//! producer fails with [`RingfireError::ProducerAlreadyExists`] without touching the live
//! ring. A stale file left by a dead producer is unlinked and replaced by a fresh inode:
//! readers still mapping the old ring keep a consistent (orphaned) view instead of seeing it
//! truncated underneath them.
//!
//! Without a lock the file is truncated in place.
//!
//! [`BackingFile`] decides; the caller performs the file operations that it asks for. An
//! operation that fails ends the creation with the operation's own error.
use crate::error::RingfireError;
use vstd::prelude::*;

verus! {

/// How often a creation opens the path before it gives up.
pub const MAX_OPENS: u32 = 8;

/// The file operation that a creation asks for.
#[derive(Debug, Clone, Copy, PartialEq, Eq, Structural)]
pub enum FileAsk {
    /// Open the path for reading and writing, create the file if it is missing, and
    /// truncate it.
    OpenTruncated,
    /// Open the path for reading and writing and create the file if it is missing.
    Open,
    /// Try to lock the open file exclusively, without waiting.
    Lock,
    /// Look up what file is open and what file the path names.
    Compare,
    /// Remove the path.
    Unlink,
    /// Set the length of the open file.
    Resize { size: u64 },
    /// Nothing more: the open file is the backing file.
    Done,
}

/// Identity of a file.
#[derive(Debug, Clone, Copy, PartialEq, Eq, Structural)]
pub struct FileId {
    pub device: u64,
    pub inode: u64,
}

/// What came of the operation.
#[derive(Debug, Clone, Copy, PartialEq, Eq, Structural)]
pub enum FileEvent {
    /// The file is open.
    Opened,
    /// The lock was tried; `held` if this process has it now.
    Locked { held: bool },
    /// The open file is `open` and has `len` bytes; the path names `current`, if anything.
    Compared { open: FileId, len: u64, current: Option<FileId> },
    /// The path was removed.
    Unlinked,
    /// The length was set.
    Resized,
}

/// The creation of a backing file.
#[derive(Debug, Clone, Copy)]
pub struct BackingFile {
    pub size: u64,
    /// How often the path may still be opened
    pub opens_left: u32,
    /// The operation in progress
    pub ask: FileAsk,
}

/// `e` is an outcome of the operation `ask`.
pub open spec fn answers(ask: FileAsk, e: FileEvent) -> bool {
    match ask {
        FileAsk::OpenTruncated | FileAsk::Open => e is Opened,
        FileAsk::Lock => e is Locked,
        FileAsk::Compare => e is Compared,
        FileAsk::Unlink => e is Unlinked,
        FileAsk::Resize { .. } => e is Resized,
        FileAsk::Done => false,
    }
}

impl BackingFile {
    /// The creation in its next operation.
    pub open spec fn asking(self, ask: FileAsk) -> BackingFile {
        BackingFile { ask, ..self }
    }

    /// The creation after it gave up on the file that it has open: it starts over, unless it
    /// did so often enough.
    pub open spec fn retried(self) -> Option<BackingFile> {
        if self.opens_left == 0 {
            None
        } else {
            Some(
                BackingFile {
                    opens_left: (self.opens_left - 1) as u32,
                    ask: FileAsk::Open,
                    ..self
                },
            )
        }
    }

    /// The creation after the operation in progress; `None` if another producer has the
    /// file.
    pub open spec fn after(self, e: FileEvent) -> Option<BackingFile> {
        match e {
            FileEvent::Opened => Some(
                if self.ask == FileAsk::OpenTruncated {
                    self.asking(FileAsk::Resize { size: self.size })
                } else {
                    self.asking(FileAsk::Lock)
                },
            ),
            FileEvent::Locked { held } => if held {
                Some(self.asking(FileAsk::Compare))
            } else {
                None
            },
            FileEvent::Compared { open, len, current } => if current != Some(open) {
                self.retried()
            } else if len != 0 {
                Some(self.asking(FileAsk::Unlink))
            } else {
                Some(self.asking(FileAsk::Resize { size: self.size }))
            },
            FileEvent::Unlinked => self.retried(),
            FileEvent::Resized => Some(self.asking(FileAsk::Done)),
        }
    }

    /// Starts the creation of a backing file of `size` bytes.
    pub fn start(exclusive_lock: bool, size: u64) -> (r: Self)
        ensures
            r == (BackingFile {
                size,
                opens_left: (MAX_OPENS - 1) as u32,
                ask: if exclusive_lock {
                    FileAsk::Open
                } else {
                    FileAsk::OpenTruncated
                },
            }),
    {
        let ask = if exclusive_lock {
            FileAsk::Open
        } else {
            FileAsk::OpenTruncated
        };
        BackingFile { size, opens_left: MAX_OPENS - 1, ask }
    }

    fn retry(&mut self) -> (r: Result<FileAsk, RingfireError>)
        ensures
            match r {
                Ok(ask) => old(self).retried() == Some(*final(self)) && ask == final(self).ask,
                Err(e) => old(self).retried() is None && e is ProducerAlreadyExists
                    && *final(self) == *old(self),
            },
    {
        if self.opens_left == 0 {
            return Err(RingfireError::ProducerAlreadyExists);
        }
        self.opens_left = self.opens_left - 1;
        self.ask = FileAsk::Open;
        Ok(self.ask)
    }

    /// Takes the outcome of the operation in progress and returns the next one.
    pub fn step(&mut self, e: FileEvent) -> (r: Result<FileAsk, RingfireError>)
        requires
            answers(old(self).ask, e),
        ensures
            match r {
                Ok(ask) => old(self).after(e) == Some(*final(self)) && ask == final(self).ask,
                Err(err) => old(self).after(e) is None && err is ProducerAlreadyExists
                    && *final(self) == *old(self),
            },
    {
        match e {
            FileEvent::Opened => {
                self.ask = match self.ask {
                    FileAsk::OpenTruncated => FileAsk::Resize { size: self.size },
                    _ => FileAsk::Lock,
                };
                Ok(self.ask)
            },
            FileEvent::Locked { held } => {
                if !held {
                    return Err(RingfireError::ProducerAlreadyExists);
                }
                self.ask = FileAsk::Compare;
                Ok(self.ask)
            },
            FileEvent::Compared { open, len, current } => {
                // The path may have been replaced between opening and locking: make sure
                // the file we locked is still the one the path names.
                let same: bool = match current {
                    Some(id) => id == open,
                    None => false,
                };
                if !same {
                    return self.retry();
                }
                if len != 0 {
                    // Stale ring from a producer that is gone (we hold its lock): replace
                    // the inode.
                    self.ask = FileAsk::Unlink;
                } else {
                    self.ask = FileAsk::Resize { size: self.size };
                }
                Ok(self.ask)
            },
            FileEvent::Unlinked => self.retry(),
            FileEvent::Resized => {
                self.ask = FileAsk::Done;
                Ok(self.ask)
            },
        }
    }
}

/// A locking creation touches nothing before it holds the lock: it unlinks the path or
/// resizes the file only right after it found that the file it has locked is the one the
/// path names, and it resizes only a file that is empty. Without the lock it ends in
/// `ProducerAlreadyExists`.
pub proof fn lemma_live_ring_untouched(f: BackingFile, e: FileEvent)
    requires
        answers(f.ask, e),
        f.ask != FileAsk::OpenTruncated,
    ensures
        f.after(e) matches Some(n) ==> {
            &&& n.ask != FileAsk::OpenTruncated
            &&& n.ask is Compare ==> e == (FileEvent::Locked { held: true })
            &&& n.ask is Unlink || n.ask is Resize ==> f.ask is Compare && (
            e matches FileEvent::Compared { open, len, current } && current == Some(open) && (
            n.ask is Resize <==> len == 0))
        },
        e == (FileEvent::Locked { held: false }) ==> f.after(e) is None,
{
}

/// Steps that a creation can still take.
pub open spec fn steps_left(f: BackingFile) -> nat {
    (5 * f.opens_left + match f.ask {
        FileAsk::Open | FileAsk::OpenTruncated => 5nat,
        FileAsk::Lock => 4,
        FileAsk::Compare => 3,
        FileAsk::Unlink => 2,
        FileAsk::Resize { .. } => 1,
        FileAsk::Done => 0,
    }) as nat
}

/// A creation ends: every step leaves fewer to take, whatever other processes do to the
/// path. It opens the path at most eight times.
pub proof fn lemma_creation_ends(f: BackingFile, e: FileEvent)
    requires
        answers(f.ask, e),
    ensures
        f.after(e) matches Some(n) ==> {
            &&& steps_left(n) < steps_left(f)
            &&& n.opens_left <= f.opens_left
            &&& n.ask is Open ==> n.opens_left < f.opens_left
            &&& n.size == f.size
        },
{
}

/// When a creation is refused: exactly if another process holds the lock, or if the file has to
/// be opened again and was opened eight times. A file is given up exactly if the path names
/// another one, or was removed; a file with contents is removed, an empty one gets its size.
pub proof fn lemma_creation_outcomes(f: BackingFile, e: FileEvent)
    requires
        answers(f.ask, e),
    ensures
        f.after(e) is None <==> (e == (FileEvent::Locked { held: false }) || (f.opens_left == 0 && (
        e is Unlinked || (e matches FileEvent::Compared { open, len, current } && current != Some(
            open,
        ))))),
        e == (FileEvent::Locked { held: true }) ==> f.after(e)->0.ask == FileAsk::Compare,
        e matches FileEvent::Compared { open, len, current } ==> (current == Some(open) ==> f.after(
            e,
        ) is Some && f.after(e)->0.ask == (if len == 0 {
            FileAsk::Resize { size: f.size }
        } else {
            FileAsk::Unlink
        })),
        f.opens_left > 0 && (e is Unlinked || (e matches FileEvent::Compared { open, len, current }
            && current != Some(open))) ==> f.after(e)->0.ask == FileAsk::Open && f.after(
            e,
        )->0.opens_left == f.opens_left - 1,
        f.ask == FileAsk::OpenTruncated ==> f.after(e)->0.ask == (FileAsk::Resize { size: f.size }),
        f.ask == FileAsk::Open ==> f.after(e)->0.ask == FileAsk::Lock,
        f.ask is Resize ==> f.after(e)->0.ask == FileAsk::Done,
{
}

} // verus!

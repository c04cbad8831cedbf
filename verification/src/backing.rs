//! The shared random-access byte store behind a disk-backed map: one lazily
//! created temporary file, addressed by byte offset, with a two-state write
//! cursor so that consecutive appends skip the seek to end-of-file.

use crate::errors::StoreError;
use std::io::Read;
use std::io::Seek;
use std::io::SeekFrom;
use std::io::Write;
use vstd::prelude::*;

verus! {

#[verifier::external_type_specification]
#[verifier::external_body]
pub struct ExIoError(std::io::Error);

/// Handle to one anonymous temporary file.  The struct is opaque to the
/// verifier; its observable state is named by `raw_bytes` (the file's
/// contents) and `raw_cursor` (the position of the underlying descriptor).
#[verifier::external_body]
pub struct RawFile {
    file: tempfile::NamedTempFile,
}

/// The bytes the temporary file currently holds.
pub uninterp spec fn raw_bytes(f: RawFile) -> Seq<u8>;

/// The read/write position of the file descriptor.
pub uninterp spec fn raw_cursor(f: RawFile) -> int;

/// The contents after writing `data` at offset `at`: bytes below `at` are
/// kept, a gap beyond the old end is zero-filled, and the file grows when
/// the write reaches past the old end.
pub open spec fn splice_bytes(content: Seq<u8>, at: int, data: Seq<u8>) -> Seq<u8> {
    Seq::new(
        if at + data.len() > content.len() {
            (at + data.len()) as nat
        } else {
            content.len()
        },
        |i: int|
            if at <= i < at + data.len() {
                data[i - at]
            } else if 0 <= i < content.len() {
                content[i]
            } else {
                0u8
            },
    )
}

impl RawFile {
    /// Relies on tempfile::NamedTempFile::new: a fresh, empty temporary
    /// file whose descriptor is positioned at the start, removed from disk
    /// when the handle is dropped.
    #[verifier::external_body]
    pub fn create() -> (r: Result<RawFile, std::io::Error>)
        ensures
            r matches Ok(f) ==> raw_bytes(f) == Seq::<u8>::empty() && raw_cursor(f) == 0,
    {
        match tempfile::NamedTempFile::new() {
            Ok(file) => Ok(RawFile { file }),
            Err(e) => Err(e.into()),
        }
    }

    /// Relies on std::io::Seek::seek with SeekFrom::End(0): reports the file
    /// length and leaves the cursor there; the contents are untouched.
    #[verifier::external_body]
    pub fn seek_end(&mut self) -> (r: Result<u64, std::io::Error>)
        ensures
            raw_bytes(*final (self)) == raw_bytes(*old(self)),
            r matches Ok(n) ==> n == raw_bytes(*old(self)).len() && raw_cursor(*final (self))
                == n,
    {
        self.file.seek(SeekFrom::End(0))
    }

    /// Relies on std::io::Seek::seek with SeekFrom::Start: moves the cursor
    /// (possibly past the end of file); the contents are untouched.
    #[verifier::external_body]
    pub fn seek_to(&mut self, pos: u64) -> (r: Result<(), std::io::Error>)
        ensures
            raw_bytes(*final (self)) == raw_bytes(*old(self)),
            r is Ok ==> raw_cursor(*final (self)) == pos,
    {
        match self.file.seek(SeekFrom::Start(pos)) {
            Ok(_) => Ok(()),
            Err(e) => Err(e),
        }
    }

    /// Relies on std::io::Write::write_all: writes the whole buffer at the
    /// cursor, zero-filling any gap beyond the old end of file.  On failure
    /// an unknown part of the addressed range may have been written, but no
    /// byte outside that range changes and the file never shrinks.
    #[verifier::external_body]
    pub fn write_at_cursor(&mut self, data: &[u8]) -> (r: Result<(), std::io::Error>)
        requires
            0 <= raw_cursor(*old(self)),
            raw_cursor(*old(self)) + data@.len() <= u64::MAX,
        ensures
            r is Ok ==> raw_bytes(*final (self)) == splice_bytes(
                raw_bytes(*old(self)),
                raw_cursor(*old(self)),
                data@,
            ) && raw_cursor(*final (self)) == raw_cursor(*old(self)) + data@.len(),
            raw_bytes(*final (self)).len() >= raw_bytes(*old(self)).len(),
            forall|i: int|
                0 <= i < raw_bytes(*old(self)).len() && !(raw_cursor(*old(self)) <= i
                    < raw_cursor(*old(self)) + data@.len())
                    ==> raw_bytes(*final (self))[i] == raw_bytes(*old(self))[i],
    {
        self.file.write_all(data)
    }

    /// Relies on std::io::Read::read_exact: fills a buffer of exactly `len`
    /// bytes from the cursor or fails; a read never changes the contents.
    /// A zero-length read would succeed without touching the file at all,
    /// wherever the cursor sits, so the bound below holds only of real
    /// reads; callers handle the empty case themselves.
    #[verifier::external_body]
    pub fn read_exact_cursor(&mut self, len: usize) -> (r: Result<Vec<u8>, std::io::Error>)
        requires
            len >= 1,
        ensures
            raw_bytes(*final (self)) == raw_bytes(*old(self)),
            r matches Ok(v) ==> 0 <= raw_cursor(*old(self)) && raw_cursor(*old(self)) + len
                <= raw_bytes(*old(self)).len() && v@ == raw_bytes(*old(self)).subrange(
                raw_cursor(*old(self)),
                raw_cursor(*old(self)) + len,
            ) && raw_cursor(*final (self)) == raw_cursor(*old(self)) + len,
    {
        let mut buf = vec![0u8; len];
        match self.file.read_exact(&mut buf) {
            Ok(()) => Ok(buf),
            Err(e) => Err(e),
        }
    }

    /// Relies on File::set_len(0), reached through NamedTempFile::as_file:
    /// on success the file is empty afterwards.
    #[verifier::external_body]
    pub fn set_len_zero(&mut self) -> (r: Result<(), std::io::Error>)
        ensures
            r is Ok ==> raw_bytes(*final (self)) == Seq::<u8>::empty(),
    {
        self.file.as_file().set_len(0)
    }
}

/// State of the backing file's write cursor.  After a read or an overwrite
/// the descriptor sits somewhere inside the file, so the next append must
/// first seek to the end; after an append it is already there.
pub enum WriteCursor {
    NeedsSeekToEnd,
    PositionedForAppend,
}

/// A lazily created temporary byte store.  `contents()` is the whole file;
/// the `len` field caches the file length while the cursor is known to sit
/// at the end, which lets consecutive appends skip the re-seek.
pub struct BackingStore {
    file: Option<RawFile>,
    cursor: WriteCursor,
    len: u64,
}

impl BackingStore {
    pub closed spec fn contents(self) -> Seq<u8> {
        match self.file {
            Some(f) => raw_bytes(f),
            None => Seq::<u8>::empty(),
        }
    }

    /// Whether the temporary file has been created yet; it only comes into
    /// being on the first write.
    pub closed spec fn has_file(self) -> bool {
        self.file is Some
    }

    pub closed spec fn wf(self) -> bool {
        match (self.cursor, self.file) {
            (WriteCursor::PositionedForAppend, Some(f)) => raw_cursor(f) == raw_bytes(f).len()
                && self.len == raw_bytes(f).len(),
            (WriteCursor::PositionedForAppend, None) => false,
            _ => true,
        }
    }

    pub fn new() -> (r: Self)
        ensures
            r.wf(),
            !r.has_file(),
            r.contents() == Seq::<u8>::empty(),
    {
        BackingStore { file: None, cursor: WriteCursor::NeedsSeekToEnd, len: 0 }
    }

    /// Appends `data` at the end of the store and returns the offset it was
    /// written at.  When the cursor is already positioned for an append the
    /// seek to end-of-file is skipped.
    pub fn write_append(&mut self, data: &[u8]) -> (r: Result<u64, StoreError>)
        requires
            old(self).wf(),
        ensures
            final (self).wf(),
            r matches Ok(off) ==> off == old(self).contents().len() && off + data@.len()
                <= u64::MAX && final (self).contents() == old(self).contents() + data@ && final (
            self).has_file(),
            r is Err ==> final (self).contents().len() >= old(self).contents().len(),
            r is Err ==> forall|i: int|
                0 <= i < old(self).contents().len() ==> final (self).contents()[i] == old(
                    self,
                ).contents()[i],
            old(self).has_file() ==> final (self).has_file(),
    {
        if self.file.is_none() {
            let f = match RawFile::create() {
                Ok(f) => f,
                Err(_) => {
                    return Err(StoreError::Io);
                },
            };
            self.file = Some(f);
            // a fresh file is empty with the cursor at its start, which is
            // also its end
            self.cursor = WriteCursor::PositionedForAppend;
            self.len = 0;
        }
        let pos: u64;
        match &mut self.file {
            Some(f) => {
                match self.cursor {
                    WriteCursor::PositionedForAppend => {
                        pos = self.len;
                    },
                    WriteCursor::NeedsSeekToEnd => {
                        pos = match f.seek_end() {
                            Ok(n) => n,
                            Err(_) => {
                                return Err(StoreError::Io);
                            },
                        };
                    },
                }
                if (data.len() as u64) > u64::MAX - pos {
                    self.cursor = WriteCursor::NeedsSeekToEnd;
                    return Err(StoreError::Io);
                }
                match f.write_at_cursor(data) {
                    Ok(()) => {
                        proof {
                            assert(raw_bytes(*f) =~= old(self).contents() + data@);
                        }
                        self.cursor = WriteCursor::PositionedForAppend;
                        self.len = pos + data.len() as u64;
                        Ok(pos)
                    },
                    Err(_) => {
                        self.cursor = WriteCursor::NeedsSeekToEnd;
                        Err(StoreError::Io)
                    },
                }
            },
            None => Err(StoreError::Io),
        }
    }

    /// Overwrites `data` at byte offset `off`.
    pub fn write_at(&mut self, off: u64, data: &[u8]) -> (r: Result<(), StoreError>)
        requires
            old(self).wf(),
            off + data@.len() <= u64::MAX,
        ensures
            final (self).wf(),
            final (self).has_file() == old(self).has_file(),
            r is Ok ==> final (self).contents() == splice_bytes(
                old(self).contents(),
                off as int,
                data@,
            ),
            final (self).contents().len() >= old(self).contents().len(),
            forall|i: int|
                0 <= i < old(self).contents().len() && !(off <= i < off + data@.len())
                    ==> final (self).contents()[i] == old(self).contents()[i],
    {
        self.cursor = WriteCursor::NeedsSeekToEnd;
        match &mut self.file {
            Some(f) => {
                match f.seek_to(off) {
                    Ok(()) => {},
                    Err(_) => {
                        return Err(StoreError::Io);
                    },
                }
                match f.write_at_cursor(data) {
                    Ok(()) => Ok(()),
                    Err(_) => Err(StoreError::Io),
                }
            },
            None => Err(StoreError::Io),
        }
    }

    /// Reads exactly `len` bytes starting at byte offset `off`.  Reading
    /// moves the descriptor, so the write cursor needs a re-seek
    /// afterwards; a zero-length read touches nothing and always succeeds.
    pub fn read_at(&mut self, off: u64, len: usize) -> (r: Result<Vec<u8>, StoreError>)
        requires
            old(self).wf(),
        ensures
            final (self).wf(),
            final (self).contents() == old(self).contents(),
            final (self).has_file() == old(self).has_file(),
            r matches Ok(v) ==> v@.len() == len,
            len > 0 ==> (r matches Ok(v) ==> off + len <= old(self).contents().len() && v@ == old(
                self,
            ).contents().subrange(off as int, off + len)),
            len == 0 ==> r is Ok,
    {
        if len == 0 {
            return Ok(Vec::new());
        }
        self.cursor = WriteCursor::NeedsSeekToEnd;
        match &mut self.file {
            Some(f) => {
                match f.seek_to(off) {
                    Ok(()) => {},
                    Err(_) => {
                        return Err(StoreError::Io);
                    },
                }
                match f.read_exact_cursor(len) {
                    Ok(v) => Ok(v),
                    Err(_) => Err(StoreError::Io),
                }
            },
            None => Err(StoreError::Io),
        }
    }

    /// Empties the store; the file handle, if any, is kept.
    pub fn truncate_to_zero(&mut self) -> (r: Result<(), StoreError>)
        requires
            old(self).wf(),
        ensures
            final (self).wf(),
            final (self).has_file() == old(self).has_file(),
            r is Ok ==> final (self).contents() == Seq::<u8>::empty(),
    {
        self.cursor = WriteCursor::NeedsSeekToEnd;
        match &mut self.file {
            Some(f) => {
                match f.set_len_zero() {
                    Ok(()) => Ok(()),
                    Err(_) => Err(StoreError::Io),
                }
            },
            None => Ok(()),
        }
    }
}

} // verus!

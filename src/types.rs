use vstd::prelude::*;

verus! {

/// The kind of entry a path denotes.
#[derive(Debug, Clone, Copy, PartialEq, Eq, Structural)]
pub enum FileType {
    Dir,
    File,
}

/// A snapshot of what a path denotes at the time it was queried.
#[derive(Debug, Clone, Copy, PartialEq, Eq, Structural)]
pub struct Metadata {
    pub size: u64,
    pub kind: FileType,
}

impl Metadata {
    pub fn is_file(&self) -> (r: bool)
        ensures
            r == (self.kind == FileType::File),
    {
        match self.kind {
            FileType::File => true,
            FileType::Dir => false,
        }
    }

    pub fn is_dir(&self) -> (r: bool)
        ensures
            r == (self.kind == FileType::Dir),
    {
        match self.kind {
            FileType::Dir => true,
            FileType::File => false,
        }
    }


    /// Same as `is_dir`; kept under the name that older callers use.
    pub fn id_dir(&self) -> (r: bool)
        ensures
            r == (self.kind == FileType::Dir),
    {
        self.is_dir()
    }

    /// The size in bytes: the content length for a file, 0 for a directory.
    pub fn len(&self) -> (r: u64)
        ensures
            r == self.size,
    {
        self.size
    }

    /// Metadata of a directory.
    pub fn dir() -> (r: Metadata)
        ensures
            r.kind == FileType::Dir,
            r.size == 0,
    {
        Metadata { size: 0, kind: FileType::Dir }
    }

    /// Metadata of a file holding `size` bytes.
    pub fn file(size: u64) -> (r: Metadata)
        ensures
            r.kind == FileType::File,
            r.size == size,
    {
        Metadata { size, kind: FileType::File }
    }
}

/// What every kind of metadata answers.
pub trait VMetadata {
    fn is_dir(&self) -> bool;

    /// Returns true iff this path is a file.
    fn is_file(&self) -> bool;

    /// Returns the length of the file at this path.
    fn len(&self) -> u64;
}

impl VMetadata for Metadata {
    fn is_dir(&self) -> bool {
        Metadata::is_dir(self)
    }

    fn is_file(&self) -> bool {
        Metadata::is_file(self)
    }

    fn len(&self) -> u64 {
        self.size
    }
}

/// A position to move a file cursor to.
#[derive(Debug, Clone, Copy, PartialEq, Eq, Structural)]
pub enum SeekFrom {
    /// Sets the offset to the provided number of bytes.
    Start(u64),
    /// Sets the offset to the size of the object plus the given number of bytes.
    End(i64),
    /// Sets the offset to the current position plus the given number of bytes.
    Current(i64),
}

impl SeekFrom {
    /// The position this request denotes for a cursor at `pos` in an object of
    /// `len` bytes, or `None` where it would lie before byte 0 (or past `u64::MAX`).
    pub open spec fn target(self, pos: u64, len: u64) -> Option<u64> {
        let t: int = match self {
            SeekFrom::Start(n) => n as int,
            SeekFrom::End(n) => len as int + n as int,
            SeekFrom::Current(n) => pos as int + n as int,
        };
        if 0 <= t <= u64::MAX {
            Some(t as u64)
        } else {
            None
        }
    }

    /// Computes `target`.
    pub fn resolve(&self, pos: u64, len: u64) -> (r: Option<u64>)
        ensures
            r == self.target(pos, len),
    {
        let (base, delta): (u64, i64) = match *self {
            SeekFrom::Start(n) => {
                return Some(n);
            },
            SeekFrom::End(n) => (len, n),
            SeekFrom::Current(n) => (pos, n),
        };
        if delta >= 0 {
            let d: u64 = delta as u64;
            base.checked_add(d)
        } else {
            let d: u64 = (-(delta as i128)) as u64;
            if d <= base {
                Some(base - d)
            } else {
                None
            }
        }
    }
}

/// How a file is to be opened.
#[derive(Debug, Clone, Copy, PartialEq, Eq, Structural)]
pub struct OpenOptions {
    pub read: bool,
    pub write: bool,
    pub create: bool,
    pub append: bool,
    pub truncate: bool,
}

impl OpenOptions {
    /// All flags off.
    pub fn new() -> (r: OpenOptions)
        ensures
            r == (OpenOptions { read: false, write: false, create: false, append: false, truncate: false }),
    {
        OpenOptions { read: false, write: false, create: false, append: false, truncate: false }
    }

    /// Open for reading.
    pub fn read(self, read: bool) -> (r: OpenOptions)
        ensures
            r == (OpenOptions { read, ..self }),
    {
        OpenOptions { read, ..self }
    }

    /// Open for writing.
    pub fn write(self, write: bool) -> (r: OpenOptions)
        ensures
            r == (OpenOptions { write, ..self }),
    {
        OpenOptions { write, ..self }
    }

    /// Create the file if it does not exist yet.
    pub fn create(self, create: bool) -> (r: OpenOptions)
        ensures
            r == (OpenOptions { create, ..self }),
    {
        OpenOptions { create, ..self }
    }

    /// Append at the end of the file.
    pub fn append(self, append: bool) -> (r: OpenOptions)
        ensures
            r == (OpenOptions { append, ..self }),
    {
        OpenOptions { append, ..self }
    }

    /// Truncate the file to 0 bytes after opening.
    pub fn truncate(self, truncate: bool) -> (r: OpenOptions)
        ensures
            r == (OpenOptions { truncate, ..self }),
    {
        OpenOptions { truncate, ..self }
    }

    /// No flag asks to create or change the file's contents.
    pub open spec fn spec_read_only(self) -> bool {
        !self.write && !self.create && !self.append && !self.truncate
    }

    /// No flag asks to create, extend or truncate the file.
    pub open spec fn spec_non_mutating(self) -> bool {
        !self.create && !self.append && !self.truncate
    }

    pub fn is_read_only(&self) -> (r: bool)
        ensures
            r == self.spec_read_only(),
    {
        !self.write && !self.create && !self.append && !self.truncate
    }

    pub fn is_non_mutating(&self) -> (r: bool)
        ensures
            r == self.spec_non_mutating(),
    {
        !self.create && !self.append && !self.truncate
    }
}

impl Default for OpenOptions {
    fn default() -> (r: OpenOptions)
        ensures
            r == (OpenOptions { read: false, write: false, create: false, append: false, truncate: false }),
    {
        OpenOptions::new()
    }
}

} // verus!

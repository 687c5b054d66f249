use crate::path::{Path, PathBuf};
use vstd::prelude::*;

verus! {

/// Possible file types.
#[derive(Clone, Copy, Debug, PartialEq, Eq, Structural)]
pub enum FileType {
    Dir,
    File,
}

impl FileType {
    pub fn dir() -> (r: FileType)
        ensures
            r == FileType::Dir,
    {
        FileType::Dir
    }

    pub fn file() -> (r: FileType)
        ensures
            r == FileType::File,
    {
        FileType::File
    }

    pub fn is_dir(&self) -> (r: bool)
        ensures
            r == (*self == FileType::Dir),
    {
        match self {
            FileType::Dir => true,
            _ => false,
        }
    }

    pub fn is_file(&self) -> (r: bool)
        ensures
            r == (*self == FileType::File),
    {
        match self {
            FileType::File => true,
            _ => false,
        }
    }
}

/// What went wrong with a filesystem operation.
#[derive(Clone, Copy, Debug, PartialEq, Eq, Structural)]
pub enum ErrorKind {
    /// The target does not resolve to anything.
    NotFound,
    /// The storage operation failed for any other reason.
    Io,
}

/// A filesystem error: its kind and a message from where it arose.
#[derive(Debug)]
pub struct Error {
    pub kind: ErrorKind,
    pub message: String,
}

impl Error {
    pub fn new(kind: ErrorKind, message: &str) -> (r: Error)
        ensures
            r.kind == kind,
            r.message@ == message@,
    {
        Error { kind, message: String::from_str(message) }
    }

    /// The error for a failed storage operation: `NotFound` when the host
    /// reported the target missing, `Io` otherwise, with the host's message.
    pub fn from_os(not_found: bool, message: &str) -> (r: Error)
        ensures
            r.kind == if not_found {
                ErrorKind::NotFound
            } else {
                ErrorKind::Io
            },
            r.message@ == message@,
    {
        let kind = if not_found {
            ErrorKind::NotFound
        } else {
            ErrorKind::Io
        };
        Error::new(kind, message)
    }

    pub fn kind(&self) -> (r: ErrorKind)
        ensures
            r == self.kind,
    {
        self.kind
    }

    pub fn message(&self) -> (r: &str)
        ensures
            r@ == self.message@,
    {
        self.message.as_str()
    }
}

/// The result type for all filesystem operations.
pub type Result<T> = core::result::Result<T, Error>;

/// Whether the outcome of a file-type query found anything; an error
/// of any kind counts as nothing found.
pub fn found(r: &Result<FileType>) -> (b: bool)
    ensures
        b == r is Ok,
{
    match r {
        Ok(_) => true,
        Err(_) => false,
    }
}

/// Whether the outcome of a file-type query found something of kind
/// `want`; an error of any kind counts as no match.
pub fn found_kind(r: &Result<FileType>, want: FileType) -> (b: bool)
    ensures
        b == (r matches Ok(t) && t == want),
{
    match r {
        Ok(t) => match (t, want) {
            (FileType::Dir, FileType::Dir) => true,
            (FileType::File, FileType::File) => true,
            _ => false,
        },
        Err(_) => false,
    }
}

/// A path bound to the filesystem that resolves it.
pub struct QPath<'a, T> {
    path: PathBuf,
    parent: &'a T,
}

impl<'a, T> QPath<'a, T> {
    /// The bytes of the bound path.
    pub closed spec fn bound(&self) -> Seq<u8> {
        self.path@
    }

    /// The filesystem the path is bound to.
    pub closed spec fn backend(&self) -> &'a T {
        self.parent
    }

    /// Binds `path` to `parent`, without checking that it exists there.
    pub fn new(parent: &'a T, path: Path<'_>) -> (r: QPath<'a, T>)
        ensures
            r.bound() == path@,
            r.backend() == parent,
    {
        QPath { path: path.to_path_buf(), parent }
    }

    pub fn path(&self) -> (r: Path<'_>)
        ensures
            r@ == self.bound(),
    {
        self.path.as_path()
    }
}

impl<'a, T: FSRead> QPath<'a, T> {
    /// What the backend's `open` returns on the bound path.
    pub fn open(&self) -> (r: Result<T::ReadFile>)
        ensures
            exists|p: Path<'_>| p@ == self.bound() && call_ensures(T::open, (self.backend(), p), r),
    {
        let p = self.path.as_path();
        let r = self.parent.open(p);
        assert(call_ensures(T::open, (self.backend(), p), r));
        r
    }

    /// What the backend's `file_type` returns on the bound path.
    pub fn file_type(&self) -> (r: Result<FileType>)
        ensures
            exists|p: Path<'_>|
                p@ == self.bound() && call_ensures(T::file_type, (self.backend(), p), r),
    {
        let p = self.path.as_path();
        let r = self.parent.file_type(p);
        assert(call_ensures(T::file_type, (self.backend(), p), r));
        r
    }

    /// Whether the backend finds anything at the bound path.
    pub fn does_exist(&self) -> (r: bool)
        ensures
            exists|p: Path<'_>, t: Result<FileType>|
                p@ == self.bound() && call_ensures(T::file_type, (self.backend(), p), t) && r == (
                t is Ok),
    {
        let p = self.path.as_path();
        let r = self.parent.does_exist(p);
        proof {
            let t = choose|t: Result<FileType>|
                call_ensures(T::file_type, (self.parent, p), t) && r == (t is Ok);
            assert(p@ == self.bound() && call_ensures(T::file_type, (self.backend(), p), t) && r == (t is Ok));
        }
        r
    }

    /// Whether the backend finds a file at the bound path.
    pub fn is_file(&self) -> (r: bool)
        ensures
            exists|p: Path<'_>, t: Result<FileType>|
                p@ == self.bound() && call_ensures(T::file_type, (self.backend(), p), t) && r == (
                t matches Ok(k) && k == FileType::File),
    {
        let p = self.path.as_path();
        let r = self.parent.is_file(p);
        proof {
            let t = choose|t: Result<FileType>|
                call_ensures(T::file_type, (self.parent, p), t) && r == (t matches Ok(k) && k == FileType::File);
            assert(p@ == self.bound() && call_ensures(T::file_type, (self.backend(), p), t) && r == (t matches Ok(k) && k == FileType::File));
        }
        r
    }

    /// Whether the backend finds a directory at the bound path.
    pub fn is_dir(&self) -> (r: bool)
        ensures
            exists|p: Path<'_>, t: Result<FileType>|
                p@ == self.bound() && call_ensures(T::file_type, (self.backend(), p), t) && r == (
                t matches Ok(k) && k == FileType::Dir),
    {
        let p = self.path.as_path();
        let r = self.parent.is_dir(p);
        proof {
            let t = choose|t: Result<FileType>|
                call_ensures(T::file_type, (self.parent, p), t) && r == (t matches Ok(k) && k == FileType::Dir);
            assert(p@ == self.bound() && call_ensures(T::file_type, (self.backend(), p), t) && r == (t matches Ok(k) && k == FileType::Dir));
        }
        r
    }

    /// The entries of the directory at this path, as the backend lists
    /// them, each bound to the same filesystem.
    pub fn read_dir(&self) -> (r: Result<DirEntries<'a, T>>)
        ensures
            r matches Ok(d) ==> d.backend() == self.backend() && d.position() == 0,
            exists|p: Path<'_>, v: Result<Vec<PathBuf>>|
                {
                    &&& p@ == self.bound()
                    &&& call_ensures(T::read_dir, (self.backend(), p), v)
                    &&& (r is Ok <==> v is Ok)
                    &&& (r matches Ok(d) ==> (v matches Ok(es) && d.listed() == es@.map_values(
                        |x: PathBuf| x@,
                    )))
                },
    {
        let p = self.path.as_path();
        let v = self.parent.read_dir(p);
        assert(call_ensures(T::read_dir, (self.backend(), p), v));
        match v {
            Ok(entries) => {
                let ghost es = entries;
                let d = DirEntries { entries, pos: 0, parent: self.parent };
                assert(d.listed() == es@.map_values(|x: PathBuf| x@));
                Ok(d)
            },
            Err(e) => Err(e),
        }
    }
}

/// The entries of a directory, handed out one at a time as paths bound
/// to the filesystem that listed them.
pub struct DirEntries<'a, T> {
    entries: Vec<PathBuf>,
    pos: usize,
    parent: &'a T,
}

impl<'a, T: FSRead> DirEntries<'a, T> {
    /// The paths of all entries, in the order they are handed out.
    pub closed spec fn listed(&self) -> Seq<Seq<u8>> {
        self.entries@.map_values(|p: PathBuf| p@)
    }

    /// How many entries were handed out.
    pub closed spec fn position(&self) -> int {
        self.pos as int
    }

    pub closed spec fn backend(&self) -> &'a T {
        self.parent
    }

    /// Hands out the next entry, or `None` once all were.
    pub fn next(&mut self) -> (r: Option<QPath<'a, T>>)
        ensures
            final(self).listed() == old(self).listed(),
            final(self).backend() == old(self).backend(),
            old(self).position() < old(self).listed().len() ==> {
                &&& r matches Some(q)
                &&& q.bound() == old(self).listed()[old(self).position()]
                &&& q.backend() == old(self).backend()
                &&& final(self).position() == old(self).position() + 1
            },
            old(self).position() >= old(self).listed().len() ==> r is None && final(self).position()
                == old(self).position(),
    {
        if self.pos < self.entries.len() {
            let q = QPath::new(self.parent, self.entries[self.pos].as_path());
            self.pos = self.pos + 1;
            Some(q)
        } else {
            None
        }
    }
}

/// Read operations of a filesystem.
pub trait FSRead: Sized {
    /// What an opened file reads from.
    type ReadFile;

    /// Opens the file at `path` for reading.
    fn open(&self, path: Path<'_>) -> Result<Self::ReadFile>;

    /// What is at `path`; `NotFound` when nothing is.
    fn file_type(&self, path: Path<'_>) -> Result<FileType>;

    /// The paths of the entries of the directory at `path`.
    fn read_dir(&self, path: Path<'_>) -> Result<Vec<PathBuf>>;
}

/// Conveniences derived from `FSRead`, for every filesystem; they are
/// defined once here and cannot be redefined by a backend.
pub trait FSReadExt: FSRead {
    /// Binds `path` to this filesystem.
    fn qualified(&self, path: Path<'_>) -> (r: QPath<'_, Self>)
        ensures
            r.bound() == path@,
            r.backend() == self,
    ;

    /// Whether anything is at `path`: whether `file_type` succeeds; never
    /// an error.
    fn does_exist(&self, path: Path<'_>) -> (r: bool)
        ensures
            exists|t: Result<FileType>| call_ensures(Self::file_type, (self, path), t) && r == (t is Ok),
    ;

    /// Whether a file is at `path`; never an error.
    fn is_file(&self, path: Path<'_>) -> (r: bool)
        ensures
            exists|t: Result<FileType>|
                call_ensures(Self::file_type, (self, path), t) && r == (t matches Ok(k) && k
                    == FileType::File),
    ;

    /// Whether a directory is at `path`; never an error.
    fn is_dir(&self, path: Path<'_>) -> (r: bool)
        ensures
            exists|t: Result<FileType>|
                call_ensures(Self::file_type, (self, path), t) && r == (t matches Ok(k) && k
                    == FileType::Dir),
    ;
}

impl<T: FSRead> FSReadExt for T {
    fn qualified(&self, path: Path<'_>) -> (r: QPath<'_, Self>) {
        QPath::new(self, path)
    }

    fn does_exist(&self, path: Path<'_>) -> (r: bool) {
        let t = self.file_type(path);
        assert(call_ensures(Self::file_type, (self, path), t));
        found(&t)
    }

    fn is_file(&self, path: Path<'_>) -> (r: bool) {
        let t = self.file_type(path);
        assert(call_ensures(Self::file_type, (self, path), t));
        found_kind(&t, FileType::File)
    }

    fn is_dir(&self, path: Path<'_>) -> (r: bool) {
        let t = self.file_type(path);
        assert(call_ensures(Self::file_type, (self, path), t));
        found_kind(&t, FileType::Dir)
    }
}

/// Write operations of a filesystem.
pub trait FSWrite: FSRead {
    /// What an opened file writes to.
    type WriteFile;

    /// Creates the file at `path`, or truncates it.
    fn create(&self, path: Path<'_>) -> Result<Self::WriteFile>;

    /// Opens the existing file at `path` for appending; it is not created.
    fn append(&self, path: Path<'_>) -> Result<Self::WriteFile>;
}

} // verus!

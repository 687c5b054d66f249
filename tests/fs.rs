use riofs::{
    found, found_kind, DirEntries, Error, ErrorKind, FSRead, FSReadExt, FileType, Path, PathBuf, QPath,
    Result,
};

/// A filesystem held in memory: a list of files and a list of
/// directories, each by its path.
struct Memory {
    files: Vec<(String, Vec<u8>)>,
    dirs: Vec<String>,
}

impl FSRead for Memory {
    type ReadFile = Vec<u8>;

    fn open(&self, path: Path<'_>) -> Result<Vec<u8>> {
        for (p, data) in self.files.iter() {
            if p == path.as_str() {
                return Ok(data.clone());
            }
        }
        Err(Error::new(ErrorKind::NotFound, "no such file"))
    }

    fn file_type(&self, path: Path<'_>) -> Result<FileType> {
        if self.files.iter().any(|(p, _)| p == path.as_str()) {
            Ok(FileType::file())
        } else if self.dirs.iter().any(|p| p == path.as_str()) {
            Ok(FileType::dir())
        } else {
            Err(Error::new(ErrorKind::NotFound, "nothing there"))
        }
    }

    fn read_dir(&self, path: Path<'_>) -> Result<Vec<PathBuf>> {
        if !self.dirs.iter().any(|p| p == path.as_str()) {
            return Err(Error::new(ErrorKind::Io, "not a directory"));
        }
        let mut out = Vec::new();
        for (p, _) in self.files.iter() {
            if Path::new(p).parent().map(|q| q.as_str()) == Some(path.as_str()) {
                out.push(PathBuf::from(p));
            }
        }
        Ok(out)
    }
}

fn memory() -> Memory {
    Memory {
        files: vec![("d/a".to_string(), b"one".to_vec()), ("d/b".to_string(), b"two".to_vec())],
        dirs: vec!["d".to_string()],
    }
}

#[test]
fn file_type_constructors() {
    assert!(FileType::dir().is_dir());
    assert!(!FileType::dir().is_file());
    assert!(FileType::file().is_file());
    assert!(!FileType::file().is_dir());
}

#[test]
fn collapsing_query_outcomes() {
    let missing: Result<FileType> = Err(Error::new(ErrorKind::NotFound, "gone"));
    assert!(!found(&missing));
    assert!(!found_kind(&missing, FileType::File));
    assert!(found(&Ok(FileType::Dir)));
    assert!(found_kind(&Ok(FileType::Dir), FileType::Dir));
    assert!(!found_kind(&Ok(FileType::Dir), FileType::File));
}

#[test]
fn os_errors_map_to_kinds() {
    let missing = Error::from_os(true, "No such file or directory");
    assert_eq!(missing.kind(), ErrorKind::NotFound);
    assert_eq!(missing.message(), "No such file or directory");
    let denied = Error::from_os(false, "Permission denied");
    assert_eq!(denied.kind(), ErrorKind::Io);
    assert_eq!(denied.message(), "Permission denied");
}

#[test]
fn error_parts() {
    let e = Error::new(ErrorKind::Io, "disk");
    assert_eq!(e.kind(), ErrorKind::Io);
    assert_eq!(e.message(), "disk");
}

#[test]
fn derived_queries() {
    let m = memory();
    assert!(m.does_exist(Path::new("d/a")));
    assert!(m.is_file(Path::new("d/a")));
    assert!(!m.is_dir(Path::new("d/a")));
    assert!(m.is_dir(Path::new("d")));
    assert!(!m.does_exist(Path::new("d/zz")));
    assert!(!m.is_file(Path::new("d/zz")));
}

#[test]
fn qualified_paths_forward_to_backend() {
    let m = memory();
    let q: QPath<Memory> = m.qualified(Path::new("d/b"));
    assert_eq!(q.path().as_str(), "d/b");
    assert_eq!(q.open().unwrap(), b"two".to_vec());
    assert!(q.is_file());
    assert!(q.does_exist());
    assert!(!q.is_dir());
    assert_eq!(q.file_type().unwrap(), FileType::File);
    let missing = m.qualified(Path::new("nowhere"));
    assert_eq!(missing.file_type().unwrap_err().kind(), ErrorKind::NotFound);
    assert_eq!(missing.read_dir().err().map(|e| e.kind()), Some(ErrorKind::Io));
}

#[test]
fn listing_yields_bound_entries() {
    let m = memory();
    let d = m.qualified(Path::new("d"));
    let mut entries: DirEntries<Memory> = d.read_dir().unwrap();
    let mut seen = Vec::new();
    while let Some(q) = entries.next() {
        assert!(q.is_file());
        seen.push(q.open().unwrap());
    }
    assert_eq!(seen, vec![b"one".to_vec(), b"two".to_vec()]);
    assert!(entries.next().is_none());
}

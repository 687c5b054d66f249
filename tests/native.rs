use riofs::{Error, ErrorKind, FileType, Native, Path};
use tempdir::TempDir;

#[test]
fn resolving_joins_components_under_root() {
    let n = Native::new("/srv/data");
    assert_eq!(n.path(Path::new("/a//b/")), "/srv/data/a/b");
    assert_eq!(n.path(Path::new("")), "/srv/data");
    let slashed = Native::new("/srv/data/");
    assert_eq!(slashed.path(Path::new("a")), "/srv/data/a");
}

#[test]
fn unpath_strips_the_root() {
    let n = Native::new("/srv/data");
    assert_eq!(n.unpath("/srv/data/a/b").map(|p| p.into_string()), Some("/a/b".to_string()));
    assert_eq!(n.unpath("/srv/data").map(|p| p.into_string()), Some(String::new()));
    assert!(n.unpath("/srv/database").is_none());
    assert!(n.unpath("/srv").is_none());
    assert!(n.unpath("/other/a").is_none());
}

#[test]
fn listing_keeps_entries_within_root() {
    let n = Native::new("/srv/data");
    let listed = vec![
        Some("/srv/data/x".to_string()),
        None,
        Some("/elsewhere/y".to_string()),
        Some("/srv/data/z.txt".to_string()),
    ];
    let kept: Vec<String> = n.entries(&listed).into_iter().map(|p| p.into_string()).collect();
    assert_eq!(kept, vec!["/x".to_string(), "/z.txt".to_string()]);
    for k in kept.iter() {
        assert!(n.path(Path::new(k)).starts_with("/srv/data/"));
    }
}

#[test]
fn classify_outcomes() {
    assert_eq!(Native::classify(Ok((true, false))).unwrap(), FileType::File);
    assert_eq!(Native::classify(Ok((false, true))).unwrap(), FileType::Dir);
    assert_eq!(Native::classify(Ok((false, false))).unwrap_err().kind(), ErrorKind::NotFound);
    let missing = Native::classify(Err(Error::from_os(true, "gone"))).unwrap_err();
    assert_eq!(missing.kind(), ErrorKind::NotFound);
    let denied = Native::classify(Err(Error::from_os(false, "Permission denied"))).unwrap_err();
    assert_eq!(denied.kind(), ErrorKind::Io);
    assert_eq!(denied.message(), "Permission denied");
}

#[test]
fn missing_file_is_not_found() {
    let t = TempDir::new("riotest").unwrap();
    let n = Native::new(t.path().to_str().unwrap());
    let target = n.path(Path::new("never"));
    let lookup = std::path::Path::new(&target)
        .metadata()
        .map(|m| (m.is_file(), m.is_dir()))
        .map_err(|e| Error::from_os(e.kind() == std::io::ErrorKind::NotFound, &e.to_string()));
    let r = Native::classify(lookup);
    assert_eq!(r.unwrap_err().kind(), ErrorKind::NotFound);
}

#[test]
fn existing_root_is_a_directory() {
    let t = TempDir::new("riotest").unwrap();
    let n = Native::new(t.path().to_str().unwrap());
    let target = n.path(Path::new("/"));
    let lookup = std::path::Path::new(&target)
        .metadata()
        .map(|m| (m.is_file(), m.is_dir()))
        .map_err(|e| Error::from_os(e.kind() == std::io::ErrorKind::NotFound, &e.to_string()));
    assert_eq!(Native::classify(lookup).unwrap(), FileType::Dir);
}

#[test]
fn empty_root_adds_no_separator() {
    let n = Native::new("");
    assert_eq!(n.path(Path::new("a")), "a");
    assert_eq!(n.path(Path::new("/a//b")), "a/b");
    assert_eq!(n.path(Path::new("")), "");
    assert_eq!(n.unpath("a/b").map(|p| p.into_string()), Some("a/b".to_string()));
}

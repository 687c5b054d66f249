use std::cmp::Ordering;
use riofs::{Components, Path, PathBuf};

fn collect<'a>(mut c: Components<'a>) -> Vec<&'a str> {
    let mut v = Vec::new();
    while let Some(p) = c.next() {
        v.push(p.as_str());
    }
    v
}

fn comps_as_path(path: &str, i: usize, j: usize, remaining: &str) {
    let p = Path::new(path);
    let mut c = p.components();
    for _ in 0..i {
        c.next();
    }
    for _ in 0..j {
        c.next_back();
    }
    assert_eq!(c.as_path().as_str(), remaining);
}

#[test]
fn comps_as_path_both() {
    comps_as_path("/a/b/c", 1, 1, "b");
}

#[test]
fn comps_as_path_root() {
    comps_as_path("/a/b/c", 0, 3, "");
}

#[test]
fn comps_as_path_root_exhaust() {
    comps_as_path("/", 0, 1, "");
}

#[test]
fn comps_as_path_none() {
    comps_as_path("/a/b/c", 1, 2, "");
}

#[test]
fn comps_as_path_a() {
    comps_as_path("/a/b/c", 0, 2, "/a");
}

#[test]
fn comps_as_path_b_c() {
    comps_as_path("/a/b/c", 1, 0, "b/c");
}

#[test]
fn comps_as_path_c() {
    comps_as_path("/a/b/c", 2, 0, "c");
}

#[test]
fn components() {
    let c: Vec<&str> = collect(Path::new("/a/b/c").components());
    assert_eq!(c, vec!["a", "b", "c"]);
}

#[test]
fn parent() {
    assert_eq!(Path::new("/a/b/c").parent().map(|p| p.as_str()), Some("/a/b"));
    assert_eq!(Path::new("/a/b/").parent().map(|p| p.as_str()), Some("/a"));
    assert_eq!(Path::new("/a").parent().map(|p| p.as_str()), Some(""));
    assert!(Path::new("/").parent().is_none());
}

#[test]
fn file_name() {
    assert_eq!(Path::new("/a/b/cde").file_name(), Some("cde"));
    assert_eq!(Path::new("/a/b/cde").file_name(), Some("cde"));
    assert_eq!(Path::new("/").file_name(), None);
    assert_eq!(Path::new("").file_name(), None);
}

#[test]
fn path_join() {
    let a = Path::new("/a/b");
    let b = Path::new("/a/b/");
    let c = PathBuf::from("/a/b/c");
    assert_eq!(a.join("c").as_str(), c.as_str());
    assert_eq!(b.join("c").as_str(), c.as_str());
}

#[test]
fn path_extension() {
    assert_eq!(Path::new("/a/b/c.txt").extension(), Some("txt"));
    assert_eq!(Path::new("/a/b/c.txt.png").extension(), Some("png"));
    assert_eq!(Path::new("/a/b/c.").extension(), Some(""));
    assert_eq!(Path::new("/a/b.txt/c").extension(), None);
    assert_eq!(Path::new("/").extension(), None);
}

#[test]
fn separators_do_not_change_components() {
    let want = vec!["a", "b", "c"];
    assert_eq!(collect(Path::new("/a/b/c").components()), want);
    assert_eq!(collect(Path::new("a/b/c").components()), want);
    assert_eq!(collect(Path::new("a//b///c/").components()), want);
}

#[test]
fn empty_and_separator_only_paths_have_no_components() {
    assert!(collect(Path::new("").components()).is_empty());
    assert!(collect(Path::new("///").components()).is_empty());
    assert!(Path::new("").parent().is_none());
    assert_eq!(Path::new("///").extension(), None);
}

#[test]
fn components_from_the_back() {
    let mut c = Path::new("/a/bc//d/").components();
    assert_eq!(c.next_back().map(|p| p.as_str()), Some("d"));
    assert_eq!(c.next_back().map(|p| p.as_str()), Some("bc"));
    assert_eq!(c.next().map(|p| p.as_str()), Some("a"));
    assert!(c.next().is_none());
    assert!(c.next_back().is_none());
    assert_eq!(c.as_path().as_str(), "");
}

#[test]
fn push_round_trip() {
    let segs = ["usr", "local", "bin.d", "x"];
    let mut p = PathBuf::new();
    for s in segs.iter() {
        p.push(s);
    }
    assert_eq!(p.as_str(), "/usr/local/bin.d/x");
    assert_eq!(collect(p.as_path().components()), segs.to_vec());
}

#[test]
fn push_separators() {
    let mut p = PathBuf::from("a/");
    p.push("b");
    assert_eq!(p.as_str(), "a/b");
    p.push("/c");
    assert_eq!(p.as_str(), "a/b/c");
    p.push("d");
    assert_eq!(p.as_str(), "a/b/c/d");
    p.push("");
    assert_eq!(p.as_str(), "a/b/c/d/");
    p.push("/e");
    assert_eq!(p.as_str(), "a/b/c/d/e");
    assert_eq!(p.clone().into_string(), "a/b/c/d/e".to_string());
}

#[test]
fn join_keeps_receiver() {
    let a = Path::new("x");
    let j = a.join("y");
    assert_eq!(j.as_str(), "x/y");
    assert_eq!(a.as_str(), "x");
    assert_eq!(a.to_path_buf().as_str(), "x");
}

#[test]
fn extension_edge_cases() {
    assert_eq!(Path::new("a/.bashrc").extension(), Some("bashrc"));
    assert_eq!(Path::new("a/b").extension(), None);
    assert_eq!(Path::new("a/é.ü").extension(), Some("ü"));
    assert_eq!(Path::new("dir/é/ü").file_name(), Some("ü"));
}

#[test]
fn parent_of_non_ascii() {
    assert_eq!(Path::new("ä/ö/ü").parent().map(|p| p.as_str()), Some("ä/ö"));
}

#[test]
fn equality_by_components() {
    assert_eq!(Path::new("/a/b/c"), Path::new("a//b///c/"));
    assert_eq!(Path::new("a/b/c"), Path::new("/a/b/c"));
    assert_ne!(Path::new("a/b"), Path::new("a/b/c"));
    assert_ne!(Path::new("a/bc"), Path::new("a/b/c"));
    assert_ne!(Path::new("a/b"), Path::new("a/c"));
    assert_eq!(Path::new(""), Path::new("//"));
    assert_eq!(PathBuf::from("x//y/"), PathBuf::from("/x/y"));
}

#[test]
fn join_equivalence() {
    let want = PathBuf::from("/a/b/c");
    assert_eq!(Path::new("/a/b").join("c"), want);
    assert_eq!(Path::new("/a/b/").join("c"), want);
}

#[test]
fn ordering_by_components() {
    assert_eq!(Path::new("a/b").partial_cmp(&Path::new("/a//b/")), Some(Ordering::Equal));
    assert!(Path::new("a/b") < Path::new("a/c"));
    assert!(Path::new("a/b") < Path::new("a/b/c"));
    assert!(Path::new("a/bc") > Path::new("a/b/c"));
    assert!(Path::new("ab") > Path::new("a/z"));
    assert!(Path::new("") < Path::new("a"));
}

#[test]
fn push_never_doubles_the_separator() {
    let mut p = PathBuf::from("a/");
    p.push("/b");
    assert_eq!(p.as_str(), "a/b");
    assert_eq!(Path::new("x/").join("/y").as_str(), "x/y");
}

#[test]
fn owned_paths_are_ordered_by_components() {
    assert!(PathBuf::from("a/b") < PathBuf::from("a/c"));
    assert_eq!(PathBuf::from("/a/b/").partial_cmp(&PathBuf::from("a//b")), Some(Ordering::Equal));
    assert!(PathBuf::from("b") > PathBuf::from("a/z"));
}

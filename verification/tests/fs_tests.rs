use profile_import::fstree::{copy_contents, copy_dir, flatten, remove_dir, DirTree};
use profile_import::paths::{add_extension, bytes_eq, file_name_lossy, has_file_name};

fn seg(s: &str) -> Vec<u8> {
    s.as_bytes().to_vec()
}

fn path(segs: &[&str]) -> Vec<Vec<u8>> {
    segs.iter().map(|s| seg(s)).collect()
}

#[test]
fn append_extension_with_existing_extension() {
    let mut p = seg("a.txt");
    add_extension(&mut p, &seg("bak"));
    assert_eq!(p, seg("a.txt.bak"));
}

#[test]
fn append_extension_without_extension() {
    let mut p = seg("a");
    add_extension(&mut p, &seg("bak"));
    assert_eq!(p, seg("a.bak"));
}

#[test]
fn append_extension_nested_path() {
    let mut p = seg("dir/archive.tar");
    add_extension(&mut p, &seg("gz"));
    assert_eq!(p, seg("dir/archive.tar.gz"));
}

#[test]
fn append_extension_no_file_name_is_noop() {
    let mut p = seg("dir/");
    add_extension(&mut p, &seg("bak"));
    assert_eq!(p, seg("dir/"));
    let mut q = seg("a/..");
    add_extension(&mut q, &seg("bak"));
    assert_eq!(q, seg("a/.."));
}

#[test]
fn file_name_of_nested_path() {
    assert_eq!(file_name_lossy(&seg("a/b/c.txt")), seg("c.txt"));
    assert_eq!(file_name_lossy(&seg("plain")), seg("plain"));
}

#[test]
fn file_name_presence() {
    assert!(has_file_name(&seg("a/b")));
    assert!(!has_file_name(&seg("a/")));
    assert!(!has_file_name(&seg("")));
    assert!(!has_file_name(&seg("a/..")));
}

#[test]
fn bytes_eq_basic() {
    assert!(bytes_eq(b"abc", b"abc"));
    assert!(!bytes_eq(b"abc", b"abd"));
    assert!(!bytes_eq(b"abc", b"ab"));
}

#[test]
fn copy_contents_no_overwrite_twice_is_idempotent() {
    // two trees with no overlapping file names
    let mut src = DirTree::new();
    src.put(path(&["m", "one.cfg"]), seg("one"));
    src.put(path(&["two.txt"]), seg("two"));
    let mut dest = DirTree::new();
    dest.put(path(&["keep.txt"]), seg("keep"));

    copy_contents(&src, &mut dest, false);
    assert_eq!(dest.file_count(), 3);
    assert_eq!(dest.get(&path(&["m", "one.cfg"])), Some(&seg("one")));

    // the second identical call changes nothing
    copy_contents(&src, &mut dest, false);
    assert_eq!(dest.file_count(), 3);
    assert_eq!(dest.get(&path(&["keep.txt"])), Some(&seg("keep")));
    assert_eq!(dest.get(&path(&["m", "one.cfg"])), Some(&seg("one")));
    assert_eq!(dest.get(&path(&["two.txt"])), Some(&seg("two")));
}

#[test]
fn copy_contents_respects_overwrite_flag() {
    let mut src = DirTree::new();
    src.put(path(&["f"]), seg("new"));
    let mut dest = DirTree::new();
    dest.put(path(&["f"]), seg("old"));

    let mut kept = DirTree::new();
    kept.put(path(&["f"]), seg("old"));
    copy_contents(&src, &mut kept, false);
    assert_eq!(kept.get(&path(&["f"])), Some(&seg("old")));

    copy_contents(&src, &mut dest, true);
    assert_eq!(dest.get(&path(&["f"])), Some(&seg("new")));
}

#[test]
fn copy_dir_merges_like_copy_contents() {
    let mut src = DirTree::new();
    src.put(path(&["x"]), seg("1"));
    let mut dest = DirTree::new();
    copy_dir(&src, &mut dest, false);
    assert_eq!(dest.get(&path(&["x"])), Some(&seg("1")));
}

#[test]
fn flatten_missing_directory_is_a_noop() {
    let mut fs = DirTree::new();
    fs.put(path(&["other", "f.txt"]), seg("f"));
    let changed = flatten(&mut fs, &seg("gone"), true);
    assert!(!changed);
    assert_eq!(fs.file_count(), 1);
    assert_eq!(fs.get(&path(&["other", "f.txt"])), Some(&seg("f")));
}

#[test]
fn flatten_merges_up_and_removes_directory() {
    let mut fs = DirTree::new();
    fs.put(path(&["d", "a.txt"]), seg("inner"));
    fs.put(path(&["d", "sub", "b.txt"]), seg("deep"));
    fs.put(path(&["c.txt"]), seg("root"));
    let changed = flatten(&mut fs, &seg("d"), false);
    assert!(changed);
    assert_eq!(fs.file_count(), 3);
    assert_eq!(fs.get(&path(&["a.txt"])), Some(&seg("inner")));
    assert_eq!(fs.get(&path(&["sub", "b.txt"])), Some(&seg("deep")));
    assert_eq!(fs.get(&path(&["c.txt"])), Some(&seg("root")));
    assert_eq!(fs.get(&path(&["d", "a.txt"])), None);
}

#[test]
fn flatten_without_overwrite_keeps_parent_file() {
    let mut fs = DirTree::new();
    fs.put(path(&["d", "a.txt"]), seg("inner"));
    fs.put(path(&["a.txt"]), seg("outer"));
    let changed = flatten(&mut fs, &seg("d"), false);
    assert!(changed);
    assert_eq!(fs.get(&path(&["a.txt"])), Some(&seg("outer")));

    let mut fs2 = DirTree::new();
    fs2.put(path(&["d", "a.txt"]), seg("inner"));
    fs2.put(path(&["a.txt"]), seg("outer"));
    assert!(flatten(&mut fs2, &seg("d"), true));
    assert_eq!(fs2.get(&path(&["a.txt"])), Some(&seg("inner")));
}

#[test]
fn remove_dir_drops_exactly_the_subtree() {
    let mut fs = DirTree::new();
    fs.put(path(&["p", "a"]), seg("1"));
    fs.put(path(&["p", "b", "c"]), seg("2"));
    fs.put(path(&["q", "d"]), seg("3"));
    remove_dir(&mut fs, &seg("p"));
    assert_eq!(fs.file_count(), 1);
    assert_eq!(fs.get(&path(&["q", "d"])), Some(&seg("3")));
}

use fsutils::fs::Fs;

#[test]
fn mkdir_then_exists() {
    let mut fs = Fs::new();
    assert_eq!(fs.mkdir("alpha"), true);
    assert_eq!(fs.path_exists("alpha"), true);
    assert_eq!(fs.mkdir("alpha"), false);
}

#[test]
fn mkdir_creates_ancestors() {
    let mut fs = Fs::new();
    assert_eq!(fs.mkdir("a/b/c"), true);
    assert_eq!(fs.path_exists("a"), true);
    assert_eq!(fs.path_exists("a/b"), true);
    assert_eq!(fs.path_exists("a/b/c"), true);
    assert_eq!(fs.directory_is_empty("a"), false);
    assert_eq!(fs.directory_is_empty("a/b/c"), true);
}

#[test]
fn mkdir_rejects_file_ancestor() {
    let mut fs = Fs::new();
    assert_eq!(fs.mkdir("d"), true);
    assert_eq!(fs.create_file("d/f"), true);
    assert_eq!(fs.mkdir("d/f/x"), false);
    assert_eq!(fs.path_exists("d/f/x"), false);
}

#[test]
fn mkdir_rejects_noncanonical_paths() {
    let mut fs = Fs::new();
    assert_eq!(fs.mkdir(""), false);
    assert_eq!(fs.mkdir("a//b"), false);
    assert_eq!(fs.mkdir("a/"), false);
    assert_eq!(fs.mkdir("/a"), false);
}

#[test]
fn create_then_read_empty() {
    let mut fs = Fs::new();
    assert_eq!(fs.create_file("f"), true);
    assert_eq!(fs.read_file("f"), "");
}

#[test]
fn write_then_read() {
    let mut fs = Fs::new();
    assert_eq!(fs.write_file("text.txt", "Hello, world!"), true);
    assert_eq!(fs.read_file("text.txt"), "Hello, world!");
}

#[test]
fn write_then_append() {
    let mut fs = Fs::new();
    assert_eq!(fs.write_file("f", "A"), true);
    assert_eq!(fs.write_file_append("f", "B"), true);
    assert_eq!(fs.read_file("f"), "AB");
}

#[test]
fn append_creates_missing_file() {
    let mut fs = Fs::new();
    assert_eq!(fs.write_file_append("g", "B"), true);
    assert_eq!(fs.read_file("g"), "B");
}

#[test]
fn rm_absent_and_present() {
    let mut fs = Fs::new();
    assert_eq!(fs.rm("nope"), false);
    assert_eq!(fs.create_file("f"), true);
    assert_eq!(fs.rm("f"), true);
    assert_eq!(fs.path_exists("f"), false);
}

#[test]
fn rm_refuses_directory() {
    let mut fs = Fs::new();
    assert_eq!(fs.mkdir("d"), true);
    assert_eq!(fs.rm("d"), false);
    assert_eq!(fs.path_exists("d"), true);
}

#[test]
fn fresh_dir_empty_then_nonempty() {
    let mut fs = Fs::new();
    assert_eq!(fs.mkdir("d"), true);
    assert_eq!(fs.directory_is_empty("d"), true);
    assert_eq!(fs.create_file("d/x"), true);
    assert_eq!(fs.directory_is_empty("d"), false);
}

#[test]
fn directory_is_empty_on_non_directories() {
    let mut fs = Fs::new();
    assert_eq!(fs.directory_is_empty("missing"), false);
    assert_eq!(fs.create_file("f"), true);
    assert_eq!(fs.directory_is_empty("f"), false);
}

#[test]
fn mv_moves_file() {
    let mut fs = Fs::new();
    assert_eq!(fs.mkdir("one"), true);
    assert_eq!(fs.mkdir("two"), true);
    assert_eq!(fs.write_file("one/f", "content"), true);
    assert_eq!(fs.mv("one/f", "two/f"), true);
    assert_eq!(fs.path_exists("one/f"), false);
    assert_eq!(fs.path_exists("two/f"), true);
    assert_eq!(fs.read_file("two/f"), "content");
}

#[test]
fn mv_refusals() {
    let mut fs = Fs::new();
    assert_eq!(fs.mv("missing", "dest"), false);
    assert_eq!(fs.create_file("f"), true);
    assert_eq!(fs.mv("f", "nodir/f"), false);
    assert_eq!(fs.mv("f", "f"), false);
    assert_eq!(fs.mkdir("d"), true);
    assert_eq!(fs.mv("f", "d"), false);
}

#[test]
fn mv_overwrites_file() {
    let mut fs = Fs::new();
    assert_eq!(fs.write_file("a", "new"), true);
    assert_eq!(fs.write_file("b", "stale"), true);
    assert_eq!(fs.mv("a", "b"), true);
    assert_eq!(fs.path_exists("a"), false);
    assert_eq!(fs.read_file("b"), "new");
}

#[test]
fn mv_moves_directory_tree() {
    let mut fs = Fs::new();
    assert_eq!(fs.mkdir("src_dir/nested"), true);
    assert_eq!(fs.write_file("src_dir/nested/f", "deep"), true);
    assert_eq!(fs.write_file("src_dir/top", "shallow"), true);
    assert_eq!(fs.mv("src_dir", "dst_dir"), true);
    assert_eq!(fs.path_exists("src_dir"), false);
    assert_eq!(fs.path_exists("src_dir/nested"), false);
    assert_eq!(fs.path_exists("src_dir/nested/f"), false);
    assert_eq!(fs.path_exists("dst_dir"), true);
    assert_eq!(fs.path_exists("dst_dir/nested"), true);
    assert_eq!(fs.read_file("dst_dir/nested/f"), "deep");
    assert_eq!(fs.read_file("dst_dir/top"), "shallow");
}

#[test]
fn mv_refuses_moving_below_itself() {
    let mut fs = Fs::new();
    assert_eq!(fs.mkdir("d"), true);
    assert_eq!(fs.mv("d", "d/sub"), false);
    assert_eq!(fs.path_exists("d"), true);
}

#[test]
fn rm_r_removes_nested_tree() {
    let mut fs = Fs::new();
    assert_eq!(fs.mkdir("a/b"), true);
    assert_eq!(fs.write_file("a/b/f", "x"), true);
    assert_eq!(fs.create_file("a/g"), true);
    assert_eq!(fs.rm_r("a"), true);
    assert_eq!(fs.path_exists("a"), false);
    assert_eq!(fs.path_exists("a/b"), false);
    assert_eq!(fs.path_exists("a/b/f"), false);
    assert_eq!(fs.path_exists("a/g"), false);
}

#[test]
fn rm_r_absent_is_satisfied() {
    let mut fs = Fs::new();
    assert_eq!(fs.rm_r("nothing"), true);
}

#[test]
fn rm_r_keeps_neighbours() {
    let mut fs = Fs::new();
    assert_eq!(fs.mkdir("a"), true);
    assert_eq!(fs.mkdir("ab"), true);
    assert_eq!(fs.create_file("a/f"), true);
    assert_eq!(fs.create_file("ab/f"), true);
    assert_eq!(fs.rm_r("a"), true);
    assert_eq!(fs.path_exists("a"), false);
    assert_eq!(fs.path_exists("a/f"), false);
    assert_eq!(fs.path_exists("ab"), true);
    assert_eq!(fs.path_exists("ab/f"), true);
}

#[test]
fn rmdir_variants() {
    let mut fs = Fs::new();
    assert_eq!(fs.rmdir("absent"), true);
    assert_eq!(fs.mkdir("d"), true);
    assert_eq!(fs.create_file("d/x"), true);
    assert_eq!(fs.rmdir("d"), false);
    assert_eq!(fs.rm("d/x"), true);
    assert_eq!(fs.rmdir("d"), true);
    assert_eq!(fs.path_exists("d"), false);
    assert_eq!(fs.create_file("f"), true);
    assert_eq!(fs.rmdir("f"), false);
}

#[test]
fn create_file_bytes_round_trip() {
    let mut fs = Fs::new();
    let text: &[u8] = b"hi";
    assert_eq!(fs.create_file_bytes("b", text), true);
    assert_eq!(fs.read_file("b"), "hi");
}

#[test]
fn read_file_of_non_text_bytes_is_empty() {
    let mut fs = Fs::new();
    let raw: &[u8] = &[0xff, 0xfe];
    assert_eq!(fs.create_file_bytes("b", raw), true);
    assert_eq!(fs.read_file("b"), "");
}

#[test]
fn create_file_needs_parent() {
    let mut fs = Fs::new();
    assert_eq!(fs.create_file("nodir/f"), false);
    assert_eq!(fs.path_exists("nodir/f"), false);
}

#[test]
fn create_file_truncates() {
    let mut fs = Fs::new();
    assert_eq!(fs.write_file("f", "abc"), true);
    assert_eq!(fs.create_file("f"), true);
    assert_eq!(fs.read_file("f"), "");
}

#[test]
fn read_file_of_missing_path_is_empty() {
    let fs = Fs::new();
    assert_eq!(fs.read_file("missing"), "");
}

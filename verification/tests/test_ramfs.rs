use axfs_tree::attr::NodeKind;
use axfs_tree::error::FsError;
use axfs_tree::ramfs::RamFileSystem;
use axfs_tree::vfs::NodeOps;

fn setup_complex_fs() -> RamFileSystem {
    let mut ramfs = RamFileSystem::new();
    let root = ramfs.root_dir();

    ramfs.create(root, "file.txt", NodeKind::File).unwrap();
    ramfs.create(root, "dir1", NodeKind::Directory).unwrap();

    let dir1 = ramfs.lookup(root, "dir1").unwrap();
    ramfs.create(dir1, "dir2", NodeKind::Directory).unwrap();

    let dir2 = ramfs.lookup(dir1, "dir2").unwrap();
    ramfs.create(dir2, "nested_file.txt", NodeKind::File).unwrap();

    ramfs
}

fn run_basic_ops_tests(ramfs: &mut RamFileSystem) -> Result<(), FsError> {
    const N: usize = 32;
    const N_HALF: usize = N / 2;
    let mut buf = [1; N];

    let root = ramfs.root_dir();
    let f1 = ramfs.lookup(root, "f1")?;

    assert_eq!(ramfs.get_attr(f1).kind, NodeKind::File);
    assert_eq!(ramfs.get_attr(f1).size, 0);

    assert_eq!(ramfs.write_at(f1, N_HALF as u64, &buf[..N_HALF])?, N_HALF);
    assert_eq!(ramfs.get_attr(f1).size, N as u64);
    assert_eq!(ramfs.read_at(f1, 0, &mut buf)?, N);
    assert_eq!(buf[..N_HALF], [0; N_HALF]);
    assert_eq!(buf[N_HALF..], [1; N_HALF]);
    Ok(())
}

fn run_parent_and_path_tests(ramfs: &RamFileSystem) -> Result<(), FsError> {
    let root = ramfs.root_dir();
    let foo = ramfs.lookup(root, "foo")?;
    let bar = ramfs.lookup(foo, "bar")?;

    assert!(ramfs.parent(bar).is_some());
    assert!(ramfs.parent(bar).unwrap() == foo);

    assert!(ramfs.lookup(bar, "..")? == foo);
    assert!(ramfs.lookup(foo, "..")? == root);

    assert!(ramfs.lookup(root, "foo/bar/..")? == ramfs.lookup(root, "foo")?);
    assert!(ramfs.lookup(root, "./foo/../foo/bar/f4")? == ramfs.lookup(root, "foo/bar/f4")?);
    Ok(())
}

#[test]
fn test_full_lifecycle() {
    let mut ramfs = RamFileSystem::new();
    let root = ramfs.root_dir();
    ramfs.create(root, "f1", NodeKind::File).unwrap();
    ramfs.create(root, "f2", NodeKind::File).unwrap();
    ramfs.create(root, "foo", NodeKind::Directory).unwrap();

    let foo = ramfs.lookup(root, "foo").unwrap();
    ramfs.create(foo, "f3", NodeKind::File).unwrap();
    ramfs.create(foo, "bar", NodeKind::Directory).unwrap();

    let bar = ramfs.lookup(foo, "bar").unwrap();
    ramfs.create(bar, "f4", NodeKind::File).unwrap();

    let mut entries = ramfs.get_entries(root).unwrap();
    entries.sort();
    assert_eq!(entries, ["f1", "f2", "foo"]);

    run_basic_ops_tests(&mut ramfs).expect("Basic ops tests failed");
    run_parent_and_path_tests(&ramfs).expect("Parent and path tests failed");

    assert_eq!(ramfs.remove(root, "f1"), Ok(()));
    assert_eq!(ramfs.remove(root, "//f2"), Ok(()));
    assert_eq!(
        ramfs.remove(root, "foo").err(),
        Some(FsError::DirectoryNotEmpty)
    );
    assert_eq!(ramfs.remove(root, "foo/bar/f4"), Ok(()));
    assert_eq!(ramfs.remove(root, "foo/bar"), Ok(()));
    assert_eq!(ramfs.remove(root, "./foo//.//f3"), Ok(()));
    assert_eq!(ramfs.remove(root, "./foo"), Ok(()));
    assert!(ramfs.get_entries(root).unwrap().is_empty());
}

#[test]
fn test_path_manipulation_and_lookup() {
    let ramfs = setup_complex_fs();
    let root = ramfs.root_dir();
    let dir1 = ramfs.lookup(root, "dir1").unwrap();
    let dir2 = ramfs.lookup(root, "dir1/dir2").unwrap();

    assert!(ramfs.lookup(root, "///dir1//./dir2/..").unwrap() == dir1);
    assert!(ramfs.lookup(dir2, "..").unwrap() == dir1);

    let file = ramfs.lookup(root, "file.txt").unwrap();
    assert_eq!(
        ramfs.lookup(file, "any").err(),
        Some(FsError::NotADirectory)
    );
}

#[test]
fn test_io_edge_cases() {
    let mut ramfs = RamFileSystem::new();
    let root = ramfs.root_dir();
    ramfs.create(root, "data.dat", NodeKind::File).unwrap();
    let file = ramfs.lookup(root, "data.dat").unwrap();
    let mut buf = [0u8; 32];

    ramfs.write_at(file, 5, b"hello").unwrap();
    assert_eq!(ramfs.get_attr(file).size, 10);
    ramfs.read_at(file, 0, &mut buf[..10]).unwrap();
    assert_eq!(&buf[..10], b"\0\0\0\0\0hello");

    ramfs.truncate(file, 5).unwrap();
    assert_eq!(ramfs.get_attr(file).size, 5);

    ramfs.truncate(file, 15).unwrap();
    assert_eq!(ramfs.get_attr(file).size, 15);
    let bytes_read = ramfs.read_at(file, 0, &mut buf).unwrap();
    assert_eq!(bytes_read, 15);
    assert_eq!(&buf[..bytes_read], &[0; 15]);
}

#[test]
fn test_axfs_ramfs_test_error_conditions() {
    let mut ramfs = setup_complex_fs();
    let root = ramfs.root_dir();
    let dir1 = ramfs.lookup(root, "dir1").unwrap();

    assert_eq!(
        ramfs.create(root, "dir1", NodeKind::Directory).err(),
        Some(FsError::AlreadyExists)
    );
    assert_eq!(
        ramfs.remove(root, "dir1").err(),
        Some(FsError::DirectoryNotEmpty)
    );
    assert_eq!(
        ramfs.read_at(dir1, 0, &mut [0]).err(),
        Some(FsError::IsADirectory)
    );
    assert_eq!(
        ramfs.write_at(dir1, 0, &[0]).err(),
        Some(FsError::IsADirectory)
    );
    assert_eq!(ramfs.remove(dir1, ".").err(), Some(FsError::InvalidInput));
    assert_eq!(ramfs.remove(dir1, "..").err(), Some(FsError::InvalidInput));
    assert_eq!(
        ramfs.lookup(root, "no-such-file").err(),
        Some(FsError::NotFound)
    );
}

#[test]
fn sparse_write_then_read() {
    let mut fs = RamFileSystem::new();
    let root = fs.root_dir();
    let f1 = fs.create(root, "f1", NodeKind::File).unwrap();
    assert_eq!(fs.write_at(f1, 16, &[1u8; 16]), Ok(16));
    assert_eq!(fs.get_attr(f1).size, 32);
    let mut buf = [9u8; 32];
    assert_eq!(fs.read_at(f1, 0, &mut buf), Ok(32));
    assert_eq!(buf[..16], [0u8; 16]);
    assert_eq!(buf[16..], [1u8; 16]);
}

#[test]
fn remove_directory_once_it_is_empty() {
    let mut fs = RamFileSystem::new();
    let root = fs.root_dir();
    let d = fs.create(root, "d", NodeKind::Directory).unwrap();
    fs.create(d, "a", NodeKind::File).unwrap();
    fs.create(d, "b", NodeKind::Directory).unwrap();
    assert_eq!(fs.remove(root, "d"), Err(FsError::DirectoryNotEmpty));
    assert_eq!(fs.remove(d, "a"), Ok(()));
    assert_eq!(fs.remove(root, "d"), Err(FsError::DirectoryNotEmpty));
    assert_eq!(fs.remove(root, "d/b"), Ok(()));
    assert_eq!(fs.remove(root, "d"), Ok(()));
    assert_eq!(fs.lookup(root, "d"), Err(FsError::NotFound));
}

#[test]
fn remove_of_dots_and_lookup_of_missing() {
    let mut fs = RamFileSystem::new();
    let root = fs.root_dir();
    assert_eq!(fs.remove(root, "."), Err(FsError::InvalidInput));
    assert_eq!(fs.remove(root, ".."), Err(FsError::InvalidInput));
    assert_eq!(fs.remove(root, ""), Err(FsError::InvalidInput));
    assert_eq!(fs.remove(root, "///"), Err(FsError::InvalidInput));
    assert_eq!(fs.lookup(root, "no-such"), Err(FsError::NotFound));
    assert_eq!(fs.remove(root, "no-such"), Err(FsError::NotFound));
    assert_eq!(fs.remove(root, "no-such/."), Err(FsError::NotFound));
}

#[test]
fn new_filesystem_is_an_empty_root() {
    let fs = RamFileSystem::new();
    let root = fs.root_dir();
    assert_eq!(root, 0);
    assert_eq!(fs.get_entries(root), Ok(Vec::new()));
    assert_eq!(fs.parent(root), None);
    assert_eq!(fs.get_attr(root).kind, NodeKind::Directory);
    assert_eq!(fs.get_attr(root).size, 0);
    assert_eq!(fs.get_attr(root).mode, 0o755);
    assert_eq!(fs.lookup(root, ""), Ok(root));
    assert_eq!(fs.lookup(root, "."), Ok(root));
    assert_eq!(fs.lookup(root, ".."), Ok(root));
    assert_eq!(fs.lookup(root, "/"), Ok(root));
    assert_eq!(fs.lookup(root, "//./..//"), Ok(root));
}

#[test]
fn path_variants_resolve_to_the_same_node() {
    let mut fs = RamFileSystem::new();
    let root = fs.root_dir();
    let a = fs.create(root, "a", NodeKind::Directory).unwrap();
    let b = fs.create(a, "b", NodeKind::Directory).unwrap();
    let c = fs.create(b, "c", NodeKind::File).unwrap();
    fs.create(a, "sib", NodeKind::File).unwrap();

    for path in [
        "a/b",
        "a//b",
        "a/b/",
        "a///b//",
        "./a/b",
        "a/./b",
        "a/b/.",
        "./a//.//b",
        "a/b/../b",
        "a/sib/../b",
        "a/b/c/..",
        "/a/b",
        "../a/b",
        "a/../a/b/./c/../../b",
    ] {
        assert_eq!(fs.lookup(root, path), Ok(b), "{}", path);
    }
    assert_eq!(fs.lookup(root, "a/b/c"), Ok(c));
    assert_eq!(fs.lookup(root, "a/b/c/"), Ok(c));
    assert_eq!(fs.lookup(root, "a/b/c/."), Ok(c));
    assert_eq!(fs.lookup(root, "a/b/c/x"), Err(FsError::NotADirectory));
    assert_eq!(fs.lookup(root, "a/x/../b"), Err(FsError::NotFound));
    assert_eq!(fs.lookup(root, "A/b"), Err(FsError::NotFound));
}

#[test]
fn absolute_paths_start_at_the_root() {
    let mut fs = RamFileSystem::new();
    let root = fs.root_dir();
    let a = fs.create(root, "a", NodeKind::Directory).unwrap();
    let b = fs.create(a, "b", NodeKind::Directory).unwrap();
    let x = fs.create(root, "x", NodeKind::File).unwrap();
    assert_eq!(fs.lookup(b, "/x"), Ok(x));
    assert_eq!(fs.lookup(b, "x"), Err(FsError::NotFound));
    assert_eq!(fs.lookup(b, "/"), Ok(root));
    assert_eq!(fs.lookup(b, ""), Ok(b));
    assert_eq!(fs.lookup(b, "../.."), Ok(root));
    assert_eq!(fs.lookup(b, "../../.."), Ok(root));
    assert_eq!(fs.lookup(b, "//a/b"), Ok(b));
    let y = fs.create(b, "/y", NodeKind::File).unwrap();
    assert_eq!(fs.lookup(root, "y"), Ok(y));
    assert_eq!(fs.parent(y), Some(root));
    assert_eq!(fs.remove(b, "/x"), Ok(()));
    assert_eq!(fs.lookup(root, "x"), Err(FsError::NotFound));
}

#[test]
fn every_entry_has_its_directory_as_parent() {
    let fs = setup_complex_fs();
    let root = fs.root_dir();
    assert_eq!(fs.parent(root), None);
    let mut pending = vec![root];
    let mut seen = 0;
    while let Some(dir) = pending.pop() {
        for name in fs.get_entries(dir).unwrap() {
            let child = fs.lookup(dir, &name).unwrap();
            assert_eq!(fs.parent(child), Some(dir));
            assert_eq!(fs.lookup(child, ".."), if fs.get_attr(child).is_dir() {
                Ok(dir)
            } else {
                Err(FsError::NotADirectory)
            });
            seen += 1;
            if fs.get_attr(child).is_dir() {
                pending.push(child);
            }
        }
    }
    assert_eq!(seen, 4);
}

#[test]
fn create_reports_each_failure_and_changes_nothing() {
    let mut fs = setup_complex_fs();
    let root = fs.root_dir();
    let file = fs.lookup(root, "file.txt").unwrap();
    assert_eq!(fs.create(file, "x", NodeKind::File), Err(FsError::NotADirectory));
    assert_eq!(fs.create(root, "file.txt/x", NodeKind::File), Err(FsError::NotADirectory));
    assert_eq!(fs.create(root, "none/x", NodeKind::File), Err(FsError::NotFound));
    assert_eq!(fs.create(root, "file.txt", NodeKind::Directory), Err(FsError::AlreadyExists));
    assert_eq!(fs.create(root, "dir1/dir2", NodeKind::File), Err(FsError::AlreadyExists));
    assert_eq!(fs.create(root, ".", NodeKind::Directory), Err(FsError::AlreadyExists));
    assert_eq!(fs.create(root, "dir1/..", NodeKind::Directory), Err(FsError::AlreadyExists));
    assert_eq!(fs.create(root, "", NodeKind::File), Err(FsError::AlreadyExists));
    let mut names = fs.get_entries(root).unwrap();
    names.sort();
    assert_eq!(names, ["dir1", "file.txt"]);

    let made = fs.create(root, "dir1//dir2/./new", NodeKind::Directory).unwrap();
    assert_eq!(fs.lookup(root, "dir1/dir2/new"), Ok(made));
    assert_eq!(fs.get_entries(made), Ok(Vec::new()));
    assert_eq!(fs.get_attr(made).kind, NodeKind::Directory);
    let dir2 = fs.lookup(root, "dir1/dir2").unwrap();
    assert_eq!(fs.parent(made), Some(dir2));
    assert_eq!(fs.get_entries(file), Err(FsError::NotADirectory));
}

#[test]
fn created_device_is_a_null_sink() {
    let mut fs = RamFileSystem::new();
    let root = fs.root_dir();
    let dev = fs.create(root, "dev", NodeKind::Device).unwrap();
    assert_eq!(fs.get_attr(dev).kind, NodeKind::Device);
    assert_eq!(fs.get_attr(dev).size, 0);
    let mut buf = [5u8; 4];
    assert_eq!(fs.read_at(dev, 0, &mut buf), Ok(0));
    assert_eq!(buf, [5u8; 4]);
    assert_eq!(fs.write_at(dev, 0, &[1, 2, 3]), Ok(3));
    assert_eq!(fs.truncate(dev, 9), Ok(()));
    assert_eq!(fs.get_attr(dev).size, 0);
    assert_eq!(fs.remove(root, "dev"), Ok(()));
}

#[test]
fn removed_node_lives_on_by_identity() {
    let mut fs = RamFileSystem::new();
    let root = fs.root_dir();
    let f = fs.create(root, "f", NodeKind::File).unwrap();
    fs.write_at(f, 0, b"abc").unwrap();
    assert_eq!(fs.remove(root, "f"), Ok(()));
    assert_eq!(fs.lookup(root, "f"), Err(FsError::NotFound));
    let mut buf = [0u8; 3];
    assert_eq!(fs.read_at(f, 0, &mut buf), Ok(3));
    assert_eq!(&buf, b"abc");
    assert_eq!(fs.write_at(f, 3, b"d"), Ok(1));
    assert_eq!(fs.get_attr(f).size, 4);
    let again = fs.create(root, "f", NodeKind::File).unwrap();
    assert!(again != f);
    assert_eq!(fs.get_attr(again).size, 0);
    assert_eq!(fs.lookup(root, "f"), Ok(again));
}

#[test]
fn names_are_case_sensitive_and_may_be_unicode() {
    let mut fs = RamFileSystem::new();
    let root = fs.root_dir();
    let lower = fs.create(root, "é", NodeKind::Directory).unwrap();
    let upper = fs.create(root, "É", NodeKind::File).unwrap();
    let inner = fs.create(root, "é/日本語.txt", NodeKind::File).unwrap();
    assert!(lower != upper);
    assert_eq!(fs.lookup(root, "/é//日本語.txt"), Ok(inner));
    assert_eq!(fs.lookup(root, "É"), Ok(upper));
    assert_eq!(fs.lookup(root, "e"), Err(FsError::NotFound));
    assert_eq!(fs.get_entries(lower).unwrap(), ["日本語.txt"]);
    assert_eq!(fs.remove(root, "é/日本語.txt"), Ok(()));
    assert_eq!(fs.remove(root, "é"), Ok(()));
}

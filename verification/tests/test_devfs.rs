use axfs_tree::attr::NodeKind;
use axfs_tree::devfs::{DeviceFileSystem, DeviceFsBuilder};
use axfs_tree::device::{Device, NullDev, ZeroDev};
use axfs_tree::error::FsError;
use axfs_tree::urandom::UrandomDev;
use axfs_tree::vfs::NodeOps;

// .
// ├── foo
// │   ├── bar
// │   │   └── f1 (null)
// │   └── f2 (zero)
// ├── null
// └── zero
fn setup_complex_devfs() -> DeviceFileSystem {
    let mut builder = DeviceFsBuilder::new();
    let root = builder.root();
    builder.add(root, "null", Device::Null(NullDev)).unwrap();
    builder.add(root, "zero", Device::Zero(ZeroDev)).unwrap();

    let dir_foo = builder.mkdir(root, "foo").unwrap();
    builder.add(dir_foo, "f2", Device::Zero(ZeroDev)).unwrap();
    let dir_bar = builder.mkdir(dir_foo, "bar").unwrap();
    builder.add(dir_bar, "f1", Device::Null(NullDev)).unwrap();
    builder.build()
}

#[test]
fn test_root_device_operations() {
    let mut devfs = setup_complex_devfs();
    let root = devfs.root_dir();

    assert!(devfs.get_attr(root).is_dir());
    assert_eq!(devfs.get_attr(root).kind, NodeKind::Directory);

    assert_eq!(
        devfs.lookup(root, "non_existent_file").err(),
        Some(FsError::NotFound)
    );

    let null_dev = devfs.lookup(root, "null").unwrap();
    assert_eq!(devfs.get_attr(null_dev).kind, NodeKind::Device);
    assert!(!devfs.get_attr(null_dev).is_dir());
    assert_eq!(devfs.get_attr(null_dev).size, 0);

    let mut buffer = [42u8; 16];
    assert_eq!(
        devfs.read_at(null_dev, 0, &mut buffer).unwrap(),
        0,
        "Reading from null should return 0 bytes"
    );
    assert_eq!(
        buffer, [42u8; 16],
        "Buffer should be unchanged after reading from null"
    );
    assert_eq!(
        devfs.write_at(null_dev, 0, &[1, 2, 3]).unwrap(),
        3,
        "Writing to null should succeed"
    );

    let zero_dev = devfs.lookup(root, "zero").unwrap();
    assert_eq!(devfs.get_attr(zero_dev).kind, NodeKind::Device);

    let mut buffer_for_zero = [42u8; 16];
    assert_eq!(
        devfs.read_at(zero_dev, 0, &mut buffer_for_zero).unwrap(),
        buffer_for_zero.len()
    );
    assert_eq!(
        buffer_for_zero, [0u8; 16],
        "Buffer should be filled with zeros after reading from zero"
    );
    assert_eq!(
        devfs.write_at(zero_dev, 0, &[1, 2, 3]).unwrap(),
        3,
        "Writing to zero should succeed"
    );
}

#[test]
fn test_complex_path_traversal_and_parent_lookup() {
    let devfs = setup_complex_devfs();
    let root = devfs.root_dir();
    let foo = devfs.lookup(root, "foo").unwrap();

    assert!(devfs.lookup(foo, "f2").unwrap() == devfs.lookup(root, ".//./foo///f2").unwrap());
    assert!(
        devfs.lookup(root, "foo/..").unwrap()
            == devfs.lookup(root, ".//./foo/././bar/../..").unwrap()
    );
    assert!(
        devfs
            .lookup(root, "././/foo//./../foo//bar///..//././")
            .unwrap()
            == devfs.lookup(root, ".//./foo/").unwrap()
    );
    assert!(
        devfs.lookup(root, "///foo//bar///../f2").unwrap()
            == devfs.lookup(root, "foo/.//f2").unwrap()
    );

    assert!(devfs.parent(root).is_none(), "Root should not have a parent");

    let bar = devfs.lookup(root, "foo/bar").unwrap();
    let parent_of_bar = devfs.parent(bar).unwrap();
    assert!(parent_of_bar == foo, "Parent of 'bar' should be 'foo'");

    let foo_from_bar = devfs.lookup(bar, "..").unwrap();
    assert!(
        foo_from_bar == foo,
        "Lookup of '..' from 'bar' should return 'foo'"
    );
}

#[test]
fn test_axfs_devfs_test_error_conditions() {
    let mut devfs = setup_complex_devfs();
    let root = devfs.root_dir();
    let null_dev = devfs.lookup(root, "null").unwrap();
    let foo_dir = devfs.lookup(root, "foo").unwrap();

    assert_eq!(
        devfs.lookup(null_dev, "any").err(),
        Some(FsError::NotADirectory),
        "Lookup on a file node should fail"
    );
    assert_eq!(
        devfs.lookup(root, "null/some_file").err(),
        Some(FsError::NotADirectory),
        "Path traversal through a file node should fail"
    );

    assert_eq!(
        devfs.read_at(foo_dir, 0, &mut [0; 1]).err(),
        Some(FsError::IsADirectory),
        "Reading a directory should fail"
    );
    assert_eq!(
        devfs.write_at(foo_dir, 0, &[0; 1]).err(),
        Some(FsError::IsADirectory),
        "Writing to a directory should fail"
    );

    assert_eq!(
        devfs.create(root, "new_file", NodeKind::File).err(),
        Some(FsError::PermissionDenied),
        "Creating files at runtime should be denied"
    );
    assert_eq!(
        devfs.remove(root, "null").err(),
        Some(FsError::PermissionDenied),
        "Removing nodes at runtime should be denied"
    );
}

#[test]
fn lookup_variants_name_one_node() {
    let devfs = setup_complex_devfs();
    let root = devfs.root_dir();
    let a = devfs.lookup(root, "./foo/../foo///bar/..//././").unwrap();
    let b = devfs.lookup(root, "foo/").unwrap();
    assert_eq!(a, b);
    assert_eq!(devfs.get_attr(a).kind, NodeKind::Directory);
}

#[test]
fn read_only_filesystem_keeps_its_entries() {
    let mut devfs = setup_complex_devfs();
    let root = devfs.root_dir();
    let foo = devfs.lookup(root, "foo").unwrap();
    let mut before = devfs.get_entries(root).unwrap();
    before.sort();
    assert_eq!(before, ["foo", "null", "zero"]);

    for kind in [NodeKind::Directory, NodeKind::File, NodeKind::Device] {
        assert_eq!(devfs.create(root, "x", kind), Err(FsError::PermissionDenied));
        assert_eq!(devfs.create(foo, "bar/y", kind), Err(FsError::PermissionDenied));
        assert_eq!(devfs.create(root, "null", kind), Err(FsError::PermissionDenied));
    }
    assert_eq!(devfs.remove(root, "zero"), Err(FsError::PermissionDenied));
    assert_eq!(devfs.remove(root, "foo/f2"), Err(FsError::PermissionDenied));
    assert_eq!(devfs.remove(root, "."), Err(FsError::PermissionDenied));
    assert_eq!(devfs.remove(root, "absent"), Err(FsError::PermissionDenied));
    let null_dev = devfs.lookup(root, "null").unwrap();
    assert_eq!(devfs.create(null_dev, "x", NodeKind::File), Err(FsError::PermissionDenied));
    assert_eq!(devfs.remove(null_dev, "x"), Err(FsError::PermissionDenied));

    let mut after = devfs.get_entries(root).unwrap();
    after.sort();
    assert_eq!(after, before);
    let mut in_foo = devfs.get_entries(foo).unwrap();
    in_foo.sort();
    assert_eq!(in_foo, ["bar", "f2"]);
    assert_eq!(devfs.lookup(root, "x"), Err(FsError::NotFound));
}

#[test]
fn devices_report_size_zero_whatever_was_done() {
    let mut devfs = setup_complex_devfs();
    let root = devfs.root_dir();
    let zero = devfs.lookup(root, "zero").unwrap();
    assert_eq!(devfs.write_at(zero, 100, &[7u8; 50]), Ok(50));
    assert_eq!(devfs.truncate(zero, 4096), Ok(()));
    let mut buf = [1u8; 9];
    assert_eq!(devfs.read_at(zero, 77, &mut buf), Ok(9));
    assert_eq!(buf, [0u8; 9]);
    let attr = devfs.get_attr(zero);
    assert_eq!(attr.size, 0);
    assert_eq!(attr.kind, NodeKind::Device);
    assert_eq!(attr.mode, 0o666);
    assert_eq!(devfs.get_attr(root).mode, 0o755);
    assert_eq!(devfs.get_attr(root).size, 0);
    assert_eq!(devfs.truncate(root, 0), Err(FsError::IsADirectory));
}

#[test]
fn builder_refuses_bad_names_and_duplicates() {
    let mut builder = DeviceFsBuilder::new();
    let root = builder.root();
    let null = builder.add(root, "null", Device::Null(NullDev)).unwrap();
    assert_eq!(
        builder.add(root, "null", Device::Zero(ZeroDev)),
        Err(FsError::AlreadyExists)
    );
    assert_eq!(builder.mkdir(root, "null"), Err(FsError::AlreadyExists));
    assert_eq!(builder.mkdir(root, ""), Err(FsError::InvalidInput));
    assert_eq!(builder.mkdir(root, "."), Err(FsError::InvalidInput));
    assert_eq!(builder.mkdir(root, ".."), Err(FsError::InvalidInput));
    assert_eq!(builder.mkdir(root, "a/b"), Err(FsError::InvalidInput));
    assert_eq!(
        builder.add(root, "/zero", Device::Zero(ZeroDev)),
        Err(FsError::InvalidInput)
    );
    assert_eq!(builder.mkdir(null, "sub"), Err(FsError::NotADirectory));
    assert_eq!(
        builder.add(null, "sub", Device::Null(NullDev)),
        Err(FsError::NotADirectory)
    );
    let dots = builder.mkdir(root, "...").unwrap();
    let fs = builder.build();
    let mut names = fs.get_entries(fs.root_dir()).unwrap();
    names.sort();
    assert_eq!(names, ["...", "null"]);
    assert_eq!(fs.lookup(fs.root_dir(), "..."), Ok(dots));
    assert_eq!(fs.parent(dots), Some(fs.root_dir()));
    assert_eq!(fs.parent(null), Some(fs.root_dir()));
}

#[test]
fn urandom_in_a_device_filesystem_advances_per_read() {
    let mut builder = DeviceFsBuilder::new();
    let root = builder.root();
    let dev = builder
        .add(root, "urandom", Device::Urandom(UrandomDev::new(0)))
        .unwrap();
    let mut fs = builder.build();
    let mut first = [0u8; 8];
    let mut second = [0u8; 8];
    assert_eq!(fs.read_at(dev, 0, &mut first), Ok(8));
    assert_eq!(fs.read_at(dev, 0, &mut second), Ok(8));
    assert_eq!(first, 1u64.to_ne_bytes());
    assert_eq!(second, 6364136223846793006u64.to_ne_bytes());
    assert_eq!(fs.get_entries(root).unwrap(), ["urandom"]);
    assert_eq!(fs.get_attr(dev).size, 0);
    assert_eq!(fs.write_at(dev, 3, &[1, 2]), Ok(2));
    assert_eq!(fs.truncate(dev, 10), Ok(()));
}

#[test]
fn new_builder_holds_an_empty_root() {
    let builder = DeviceFsBuilder::new();
    let root = builder.root();
    assert_eq!(root, 0);
    let fs = builder.build();
    assert!(fs.contains(root));
    assert!(!fs.contains(1));
    assert_eq!(fs.parent(root), None);
    assert_eq!(fs.get_entries(root), Ok(Vec::new()));
    assert_eq!(fs.get_attr(root).kind, NodeKind::Directory);
    assert_eq!(fs.lookup(root, ".."), Ok(root));
}

use axfs_tree::attr::{NodeAttr, NodeKind};
use axfs_tree::file::FileNode;

fn content(file: &FileNode) -> Vec<u8> {
    let mut buf = vec![0xeeu8; file.size() as usize];
    assert_eq!(file.read_at(0, &mut buf), Ok(buf.len()));
    buf
}

#[test]
fn new_file_is_empty() {
    let file = FileNode::new();
    assert_eq!(file.size(), 0);
    let attr = file.get_attr();
    assert_eq!(attr, NodeAttr { mode: 0o666, kind: NodeKind::File, size: 0 });
    assert!(attr.is_file());
    assert!(!attr.is_dir());
    let mut buf = [7u8; 4];
    assert_eq!(file.read_at(0, &mut buf), Ok(0));
    assert_eq!(buf, [7u8; 4]);
}

#[test]
fn write_then_read_gives_the_data_back() {
    for offset in [0u64, 1, 5, 100] {
        let mut file = FileNode::new();
        file.write_at(0, b"0123456789").unwrap();
        assert_eq!(file.write_at(offset, b"hello"), Ok(5));
        let mut buf = [0u8; 5];
        assert_eq!(file.read_at(offset, &mut buf), Ok(5));
        assert_eq!(&buf, b"hello");
    }
}

#[test]
fn write_inside_keeps_size_and_surroundings() {
    let mut file = FileNode::new();
    file.write_at(0, b"0123456789").unwrap();
    assert_eq!(file.write_at(3, b"abc"), Ok(3));
    assert_eq!(file.size(), 10);
    assert_eq!(content(&file), b"012abc6789");
    assert_eq!(file.write_at(8, b"XYZ"), Ok(3));
    assert_eq!(file.size(), 11);
    assert_eq!(content(&file), b"012abc67XYZ");
}

#[test]
fn write_beyond_the_end_fills_the_gap_with_zeros() {
    let mut file = FileNode::new();
    file.write_at(0, b"ab").unwrap();
    assert_eq!(file.write_at(6, b"cd"), Ok(2));
    assert_eq!(file.size(), 8);
    assert_eq!(content(&file), b"ab\0\0\0\0cd");
    let mut gap = [9u8; 4];
    assert_eq!(file.read_at(2, &mut gap), Ok(4));
    assert_eq!(gap, [0u8; 4]);
}

#[test]
fn empty_write_beyond_the_end_grows_the_file() {
    let mut file = FileNode::new();
    assert_eq!(file.write_at(4, &[]), Ok(0));
    assert_eq!(file.size(), 4);
    assert_eq!(content(&file), [0u8; 4]);
    assert_eq!(file.write_at(2, &[]), Ok(0));
    assert_eq!(file.size(), 4);
}

#[test]
fn read_takes_what_is_there_and_leaves_the_rest() {
    let mut file = FileNode::new();
    file.write_at(0, b"0123456789").unwrap();
    let mut buf = [b'-'; 6];
    assert_eq!(file.read_at(7, &mut buf), Ok(3));
    assert_eq!(&buf, b"789---");
    assert_eq!(file.read_at(10, &mut buf), Ok(0));
    assert_eq!(&buf, b"789---");
    assert_eq!(file.read_at(11, &mut buf), Ok(0));
    assert_eq!(file.read_at(u64::MAX, &mut buf), Ok(0));
    assert_eq!(&buf, b"789---");
    assert_eq!(file.read_at(2, &mut buf), Ok(6));
    assert_eq!(&buf, b"234567");
    let mut none: [u8; 0] = [];
    assert_eq!(file.read_at(2, &mut none), Ok(0));
}

#[test]
fn truncate_shrinks_and_grows() {
    let mut file = FileNode::new();
    file.write_at(0, b"0123456789").unwrap();
    assert_eq!(file.truncate(4), Ok(()));
    assert_eq!(file.size(), 4);
    assert_eq!(content(&file), b"0123");
    assert_eq!(file.truncate(4), Ok(()));
    assert_eq!(content(&file), b"0123");
    assert_eq!(file.truncate(7), Ok(()));
    assert_eq!(file.get_attr().size, 7);
    assert_eq!(content(&file), b"0123\0\0\0");
    assert_eq!(file.truncate(0), Ok(()));
    assert_eq!(file.size(), 0);
    assert_eq!(content(&file), b"");
}

#[test]
fn truncate_then_read_from_the_start() {
    for n in [0u64, 3, 10, 14] {
        let mut file = FileNode::new();
        file.write_at(0, b"0123456789").unwrap();
        file.truncate(n).unwrap();
        let mut buf = vec![0xeeu8; n as usize];
        assert_eq!(file.read_at(0, &mut buf), Ok(n as usize));
        let mut expected = b"0123456789".to_vec();
        expected.resize(n as usize, 0);
        assert_eq!(buf, expected);
    }
}

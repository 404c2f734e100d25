use oxdb_engine::doc::io::BlockLayout;
use oxdb_engine::doc::io::SeekTo;

#[test]
fn io_main() {
    // the block size the file system did not report falls back to 4096
    let layout = BlockLayout::new(None);
    println!("Block size (from instance): {}", layout.get_block_size());
    assert_eq!(layout.get_block_size(), 4096);

    let data = b"Hello, database!";

    // Write data at the end (append)
    let (seek, bytes) = layout.write_plan(data, None, None);
    assert_eq!(seek, SeekTo::End);
    assert_eq!(bytes.len(), 4096);
    assert_eq!(&bytes[..data.len()], data);
    assert!(bytes[data.len()..].iter().all(|&b| b == 0));

    // Write data to a specific block index (e.g., index 2)
    let (seek, bytes2) = layout.write_plan(data, Some(2), Some(1));
    assert_eq!(seek, SeekTo::Start(8192));
    assert_eq!(bytes2, bytes);

    // Read the first block (index not given)
    assert_eq!(layout.read_plan(None, None), (SeekTo::Start(0), 4096));

    // Read the block at index 2
    assert_eq!(layout.read_plan(Some(2), Some(1)), (SeekTo::Start(8192), 4096));
}

#[test]
fn io_probed_block_size_is_used() {
    let layout = BlockLayout::new(Some(512));
    assert_eq!(layout.get_block_size(), 512);
    assert_eq!(layout.read_plan(Some(3), Some(2)), (SeekTo::Start(1536), 1024));
}

#[test]
fn io_write_longer_than_page_is_not_cut() {
    let layout = BlockLayout::new(Some(4));
    let (seek, bytes) = layout.write_plan(&[1, 2, 3, 4, 5, 6], Some(1), None);
    assert_eq!(seek, SeekTo::Start(4));
    assert_eq!(bytes, vec![1, 2, 3, 4, 5, 6]);
    let (_, bytes) = layout.write_plan(&[1, 2, 3], None, Some(2));
    assert_eq!(bytes, vec![1, 2, 3, 0, 0, 0, 0, 0]);
}

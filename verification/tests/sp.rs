use oxdb_engine::doc::sp::SlottedPage;
use oxdb_engine::doc::sp::SlottedPageManager;

#[test]
fn sp_main() {
    let mut manager = SlottedPageManager::new();
    let sam = vec![0u8; 1 * 10];
    println!("{:?}", sam);
    let bytedataarray = vec![
        vec![0u8; 20 * 1024], // 20 KB data
        vec![0u8; 50 * 1024], // 50 KB data
        vec![0u8; 10 * 1024], // 10 KB data
        vec![0u8; 10 * 1024], // 10 KB data
        vec![0u8; 80 * 1024], // 80 KB data
        vec![0u8; 1 * 1024],
        vec![0u8; 2 * 1024],
        vec![0u8; 3 * 1024],
    ];

    let result = manager.push(bytedataarray);

    for (indices, page) in result {
        println!("Data indices: {:?}", indices);
        println!("Slotted page: {:?}", &page[1..25]);
    }
}

fn be32(b: &[u8]) -> u32 {
    u32::from_be_bytes([b[0], b[1], b[2], b[3]])
}

#[test]
fn sp_push_groups_records_into_pages() {
    let mut manager = SlottedPageManager::new();
    let result = manager.push(vec![
        vec![1u8; 20 * 1024],
        vec![2u8; 50 * 1024],
        vec![3u8; 10 * 1024],
        vec![4u8; 10 * 1024],
        vec![5u8; 80 * 1024],
        vec![6u8; 1 * 1024],
        vec![7u8; 2 * 1024],
        vec![8u8; 3 * 1024],
    ]);
    let indices: Vec<Vec<usize>> = result.iter().map(|(i, _)| i.clone()).collect();
    assert_eq!(
        indices,
        vec![vec![0], vec![1, 2], vec![3], vec![4, 5, 6], vec![7]]
    );
    let lens: Vec<usize> = result.iter().map(|(_, p)| p.len()).collect();
    assert_eq!(lens, vec![65536, 65536, 65536, 86016, 65536]);
}

#[test]
fn sp_page_header_and_data_layout() {
    let mut manager = SlottedPageManager::new();
    let result = manager.push(vec![vec![0xaau8; 3], vec![0xbbu8; 2]]);
    assert_eq!(result.len(), 1);
    let (indices, page) = &result[0];
    assert_eq!(indices, &vec![0, 1]);
    assert_eq!(page.len(), 16 * 4096);
    // page length in blocks, block size, slot count
    assert_eq!(&page[0..2], &[0, 16]);
    assert_eq!(&page[2..4], &[0x10, 0x00]);
    assert_eq!(be32(&page[4..8]), 2);
    // slot positions: page size less the record bytes up to and including each
    assert_eq!(be32(&page[8..12]), 65536 - 3);
    assert_eq!(be32(&page[12..16]), 65536 - 5);
    // zero padding, then the records, newest first, up to the page's end
    assert!(page[16..65536 - 5].iter().all(|&b| b == 0));
    assert_eq!(&page[65536 - 5..], &[0xbb, 0xbb, 0xaa, 0xaa, 0xaa]);
    // each slot position is where its record starts
    assert_eq!(&page[65533..65536], &[0xaa, 0xaa, 0xaa]);
    assert_eq!(&page[65531..65533], &[0xbb, 0xbb]);
}

#[test]
fn sp_large_first_record_opens_a_larger_page() {
    let mut manager = SlottedPageManager::new();
    // 100 000 bytes + 12 of header need 25 blocks
    let result = manager.push(vec![vec![0u8; 100_000]]);
    assert_eq!(result.len(), 1);
    assert_eq!(result[0].0, vec![0]);
    assert_eq!(result[0].1.len(), 25 * 4096);
    assert_eq!(&result[0].1[0..2], &[0, 25]);
}

#[test]
fn sp_page_can_fit_and_add_data() {
    let mut page = SlottedPage::new(16);
    // 3 bytes + 2 per slot + data must stay within 65536 bytes
    assert!(page.can_fit(65536 - 5, 1));
    assert!(!page.can_fit(65536 - 4, 1));
    page.add_data(vec![1u8; 100]);
    assert!(page.can_fit(65536 - 100 - 7, 1));
    assert!(!page.can_fit(65536 - 100 - 6, 1));
}

#[test]
fn sp_slots_locate_records_in_every_page() {
    let records: Vec<Vec<u8>> = (0..8u8)
        .map(|r| vec![r + 1; [20, 50, 10, 10, 80, 1, 2, 3][r as usize] * 1024 + r as usize])
        .collect();
    let mut manager = SlottedPageManager::new();
    assert!(manager.can_push(&records));
    let result = manager.push(records.clone());
    for (indices, page) in &result {
        assert_eq!(be32(&page[4..8]) as usize, indices.len());
        for (k, &index) in indices.iter().enumerate() {
            let pos = be32(&page[8 + 4 * k..12 + 4 * k]) as usize;
            let record = &records[index];
            assert_eq!(&page[pos..pos + record.len()], &record[..]);
        }
    }
}

#[test]
fn sp_can_push_tells_where_push_runs_to_the_end() {
    let manager = SlottedPageManager::new();
    // no record
    assert!(!manager.can_push(&vec![]));
    // the header rule of can_fit admits more empty records than the page
    // header (8 bytes and 4 per slot) has room for
    assert!(!manager.can_push(&vec![vec![]; 20000]));
    assert!(manager.can_push(&vec![vec![]; 16000]));
    assert!(manager.can_push(&vec![vec![7u8; 3], vec![8u8; 2]]));
}

use rusticdb_core::pager::{page_offset, Pager, PagerError, PAGE_SIZE};

#[test]
fn test_write_page_success() {
    let mut pager = Pager::open(Vec::new());
    let data = [42u8; PAGE_SIZE];

    let result = pager.write_page(0, &data);
    assert!(result.is_ok());
}

#[test]
fn test_read_page_content_correct() {
    let stored: Vec<u8>;
    {
        let mut pager = Pager::open(Vec::new());
        let mut buf = [0u8; PAGE_SIZE];
        buf[..4].copy_from_slice(&[1, 2, 3, 4]);
        pager.write_page(0, &buf).unwrap();
        stored = pager.into_bytes();
    }

    {
        let pager = Pager::open(stored);
        let page = pager.read_page(0);
        assert_eq!(&page[..4], &[1, 2, 3, 4]);
    }
}

#[test]
fn test_read_uninitialized_page_zero_filled() {
    let pager = Pager::open(Vec::new());
    let page = pager.read_page(9999);

    assert!(page.iter().all(|&b| b == 0));
}

#[test]
fn empty_store_reads_zero_at_any_index() {
    let pager = Pager::open(Vec::new());
    for &index in &[0usize, 1, 7, 4096, usize::MAX / PAGE_SIZE, usize::MAX] {
        let page = pager.read_page(index);
        assert_eq!(page.len(), 4096);
        assert!(page.iter().all(|&b| b == 0));
    }
}

#[test]
fn written_page_reads_back_after_reopen() {
    let mut page = [0u8; PAGE_SIZE];
    for (i, b) in page.iter_mut().enumerate() {
        *b = (i % 251) as u8;
    }
    let mut pager = Pager::open(Vec::new());
    pager.write_page(3, &page).unwrap();
    assert_eq!(pager.read_page(3), page);

    let reopened = Pager::open(pager.into_bytes());
    assert_eq!(reopened.read_page(3), page);
}

#[test]
fn page_lies_at_index_times_page_size() {
    let mut pager = Pager::open(Vec::new());
    pager.write_page(2, &[7u8; PAGE_SIZE]).unwrap();
    let bytes = pager.as_bytes();
    assert_eq!(bytes.len(), 3 * 4096);
    assert!(bytes[..2 * 4096].iter().all(|&b| b == 0));
    assert!(bytes[2 * 4096..].iter().all(|&b| b == 7));
}

#[test]
fn write_keeps_other_pages_and_a_longer_store() {
    let mut pager = Pager::open(Vec::new());
    pager.write_page(0, &[1u8; PAGE_SIZE]).unwrap();
    pager.write_page(2, &[3u8; PAGE_SIZE]).unwrap();
    pager.write_page(1, &[2u8; PAGE_SIZE]).unwrap();
    assert_eq!(pager.as_bytes().len(), 3 * 4096);
    assert_eq!(pager.read_page(0), [1u8; PAGE_SIZE]);
    assert_eq!(pager.read_page(1), [2u8; PAGE_SIZE]);
    assert_eq!(pager.read_page(2), [3u8; PAGE_SIZE]);
    assert_eq!(pager.read_page(3), [0u8; PAGE_SIZE]);
}

#[test]
fn short_store_reads_zero_padded() {
    let pager = Pager::open(vec![9u8; 4096 + 10]);
    let first = pager.read_page(0);
    assert!(first.iter().all(|&b| b == 9));
    let second = pager.read_page(1);
    assert!(second[..10].iter().all(|&b| b == 9));
    assert!(second[10..].iter().all(|&b| b == 0));
    let third = pager.read_page(2);
    assert!(third.iter().all(|&b| b == 0));
}

#[test]
fn write_into_short_store_grows_it_to_the_page_end() {
    let mut pager = Pager::open(vec![9u8; 10]);
    pager.write_page(0, &[5u8; PAGE_SIZE]).unwrap();
    assert_eq!(pager.as_bytes().len(), 4096);
    assert!(pager.as_bytes().iter().all(|&b| b == 5));
}

#[test]
fn write_out_of_range_is_refused() {
    let mut pager = Pager::open(vec![1u8; 5]);
    let result = pager.write_page(usize::MAX, &[0u8; PAGE_SIZE]);
    assert_eq!(result, Err(PagerError::OutOfRange));
    assert_eq!(pager.as_bytes(), &[1u8; 5]);

    let last_in_range = isize::MAX as usize / PAGE_SIZE;
    let result = pager.write_page(last_in_range, &[0u8; PAGE_SIZE]);
    assert_eq!(result, Err(PagerError::OutOfRange));
}

#[test]
fn page_offset_is_index_times_page_size() {
    assert_eq!(page_offset(0), Some(0));
    assert_eq!(page_offset(1), Some(4096));
    assert_eq!(page_offset(9999), Some(9999 * 4096));
    let last = (u64::MAX / 4096) as usize;
    assert_eq!(page_offset(last), Some(last as u64 * 4096));
    assert_eq!(page_offset(last + 1), None);
    assert_eq!(page_offset(usize::MAX), None);
}

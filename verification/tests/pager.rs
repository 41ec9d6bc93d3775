use pagetree::page::{Page, PageType};
use pagetree::book::{PageBook, Place};
use pagetree::page::PAGE_SIZE;
use pagetree::pager::{MemPager, PageNotFoundError, Pager};

fn leaf(id: u32, key: i32) -> Page<i32, i32> {
    Page {
        id,
        ptype: PageType::Leaf,
        keys: vec![key],
        vals: vec![key * 2],
        deleted: vec![false],
        sibling: None,
        children: vec![],
    }
}

#[test]
fn mem_pager_reads_what_was_written_last() {
    let mut pager: MemPager<i32, i32> = MemPager::new();
    assert_eq!(pager.read_page(0).err(), Some(PageNotFoundError));
    for id in [5u32, 1, 3, 2, 4] {
        pager.write_page(&leaf(id, id as i32));
    }
    for id in 1u32..=5 {
        let page = pager.read_page(id).ok().unwrap();
        assert_eq!(page.id, id);
        assert_eq!(page.keys, vec![id as i32]);
    }
    pager.write_page(&leaf(3, 33));
    pager.write_page(&leaf(3, 33));
    assert_eq!(pager.read_page(3).ok().unwrap().keys, vec![33]);
    assert_eq!(pager.read_page(2).ok().unwrap().keys, vec![2]);
    assert_eq!(pager.read_page(6).err(), Some(PageNotFoundError));
    pager.commit();
    assert_eq!(pager.read_page(3).ok().unwrap().vals, vec![66]);
}

#[test]
fn mem_pager_counts_and_hands_over_its_pages() {
    let mut pager: MemPager<i32, i32> = MemPager::new();
    assert_eq!(pager.len(), 0);
    assert!(!pager.contains(1));
    for id in [9u32, 4, 6, 4] {
        pager.write_page(&leaf(id, id as i32));
    }
    assert_eq!(pager.len(), 3);
    assert!(pager.contains(4) && pager.contains(6) && pager.contains(9));
    assert!(!pager.contains(5));
    let taken = pager.take_pages();
    assert_eq!(taken.iter().map(|p| p.id).collect::<Vec<u32>>(), vec![4, 6, 9]);
    assert_eq!(pager.len(), 0);
    assert!(!pager.contains(4));
}

#[test]
fn books_read_from_buffer_then_cache_then_file() {
    let mut book: PageBook<i32, i32> = PageBook::new(2);
    assert_eq!(book.place_of(1), Place::Nowhere);
    assert_eq!(book.read_known(1).err(), Some(PageNotFoundError));
    assert!(!book.write_page(&leaf(1, 10)));
    assert_eq!(book.place_of(1), Place::Buffer);
    assert_eq!(book.read_known(1).ok().unwrap().keys, vec![10]);
    assert!(!book.write_page(&leaf(1, 11)));
    assert!(!book.write_page(&leaf(5, 50)));
    assert!(book.write_page(&leaf(3, 30)));
    let writes = book.flush().unwrap();
    let blocks: Vec<(u64, u32, i32)> = writes.iter().map(|(o, p)| (*o, p.id, p.keys[0])).collect();
    let size = PAGE_SIZE as u64;
    assert_eq!(blocks, vec![(0, 1, 11), (size, 3, 30), (2 * size, 5, 50)]);
    assert_eq!(book.place_of(1), Place::Cache);
    assert_eq!(book.read_known(3).ok().unwrap().keys, vec![30]);
    assert!(!book.write_page(&leaf(3, 33)));
    assert!(!book.write_page(&leaf(2, 20)));
    assert_eq!(book.place_of(3), Place::Buffer);
    assert_eq!(book.read_known(3).ok().unwrap().keys, vec![33]);
    let writes = book.flush().unwrap();
    let blocks: Vec<(u64, u32, i32)> = writes.iter().map(|(o, p)| (*o, p.id, p.keys[0])).collect();
    assert_eq!(blocks, vec![(3 * size, 2, 20), (size, 3, 33)]);
    assert_eq!(book.read_known(3).ok().unwrap().keys, vec![33]);
    assert_eq!(book.flush().unwrap().len(), 0);
    book.cache_page(&leaf(8, 80));
    assert_eq!(book.place_of(8), Place::Cache);
    assert_eq!(book.place_of(7), Place::Nowhere);
}

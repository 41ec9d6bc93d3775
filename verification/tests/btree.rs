use pagetree::btree::{BTree, DuplicateKeyError, KeyNotFoundError};
use pagetree::pager::{MemPager, PageNotFoundError};
use rand::Rng;

#[test]
fn test_insert_no_split() {
    let mut bt: BTree<i32, i32> = BTree::new(27, false);
    let kvs = [(5, 50), (6, 60), (7, -70), (7, 70), (8, 80)];
    for (k, v) in kvs.into_iter() {
        let err = bt.insert(k, v);
        assert!(err.is_ok());
    }
    assert_eq!(bt.find(&5), Some(50));
    assert_eq!(bt.find(&6), Some(60));
    assert_eq!(bt.find(&8), Some(80));
}

#[test]
fn test_insert_split() {
    let mut bt: BTree<i32, i32> = BTree::new(3, true);
    let kvs = [(5, 55), (6, 66), (7, 77), (8, 88), (9, 99), (10, 100)];
    for (k, v) in kvs.into_iter() {
        let err = bt.insert(k, v);
        assert!(err.is_ok());
    }

    assert_eq!(bt.find(&5), Some(55));
    assert_eq!(bt.find(&6), Some(66));
    assert_eq!(bt.find(&7), Some(77));
    assert_eq!(bt.find(&9), Some(99));
    assert_eq!(bt.find(&8), Some(88));
    assert_eq!(bt.find(&666), None);
}

#[test]
fn test_insert_rand() {
    let mut rng = rand::thread_rng();
    let sizes = [33, 101, 179, 213, 303];
    for size in sizes.into_iter() {
        println!("size={}", size);
        let mut bt: BTree<i32, i32> = BTree::new(size, true);
        let mut keys: Vec<i32> = (0..50000)
            .map(|_| {
                let k = rng.gen::<i32>();
                return k;
            })
            .collect();
        keys.sort();
        keys.dedup();
        let mut vals = vec![];
        for &k in keys.iter() {
            let val: i32 = rng.gen();
            vals.push(val);
            let err = bt.insert(k, val);
            assert!(err.is_ok());
        }
        for (k, v) in keys.iter().zip(vals) {
            assert_eq!(bt.find(k), Some(v));
        }
    }
}

#[test]
fn test_delete_rand() {
    let sizes = [71, 155, 191, 211, 301];
    for size in sizes.into_iter() {
        println!("size={}", size);
        let mut rng = rand::thread_rng();
        let mut bt: BTree<i32, i32> = BTree::new(size, true);
        let n = 50000;
        let mut keys: Vec<i32> = (0..n)
            .map(|_| {
                let k = rng.gen::<i32>();
                return k;
            })
            .collect();
        keys.sort();
        keys.dedup();
        let mut vals = vec![];
        for &k in keys.iter() {
            let val: i32 = rng.gen();
            vals.push(val);
            let err = bt.insert(k, val);
            assert!(err.is_ok());
        }
        for k in keys[n / 2..].iter() {
            let err = bt.delete(k);
            assert!(err.is_ok());
        }
        for (i, k) in keys[0..n / 2].iter().enumerate() {
            assert_eq!(bt.find(k), Some(vals[i]));
        }
    }
}

#[test]
fn test_delete_one() {
    let mut bt: BTree<i32, i32> = BTree::new(3, true);
    let kvs = [(3, 333), (5, 55), (6, 66), (7, 77), (9, 99), (10, 100)];
    for (k, v) in kvs.into_iter() {
        let err = bt.insert(k, v);
        assert!(err.is_ok());
    }

    assert_eq!(bt.find(&5), Some(55));
    let err = bt.delete(&5);
    assert!(err.is_ok());
    assert_eq!(err.unwrap(), 1 as usize);
    assert_eq!(bt.find(&5), None);
}

#[test]
fn test_duplicate_key() {
    let mut bt: BTree<i32, i32> = BTree::new(5, true);
    assert!(bt.insert(5, 55).is_ok());
    let err = bt.insert(5, 555);
    assert_eq!(err, Err(DuplicateKeyError));

    assert!(bt.delete(&5).is_ok());
    assert!(bt.insert(5, 555).is_ok());
}

#[test]
fn test_find_range() {
    let mut bt: BTree<i32, i32> = BTree::new(33, true);
    for i in (0..10000).step_by(3) {
        let err = bt.insert(i as i32, 3 * i as i32);
        assert!(err.is_ok());
    }

    let min = 51;
    let max = 300;
    let kvs = bt.find_range(&min, &max);
    assert_eq!(51, kvs.first().unwrap().0);
    assert_eq!(300, kvs.last().unwrap().0);
    assert_eq!(kvs.len(), ((max - min) / 3 + 1) as usize);

    for (k, v) in kvs.into_iter() {
        assert!(k >= 51);
        assert!(300 >= k);
        assert_eq!(v, 3 * k);
    }
}

#[test]
fn find_range_gives_exactly_the_keys_in_range() {
    let mut bt: BTree<i32, i32> = BTree::new(33, true);
    for i in (0..10000).step_by(3) {
        assert!(bt.insert(i as i32, 3 * i as i32).is_ok());
    }
    let kvs = bt.find_range(&51, &300);
    let expected: Vec<(i32, i32)> = (51..=300).step_by(3).map(|k| (k, 3 * k)).collect();
    assert_eq!(kvs.len(), 84);
    assert_eq!(kvs, expected);
    assert_eq!(bt.find_range(&52, &53), vec![]);
    assert_eq!(bt.find_range(&300, &51), vec![]);
    assert_eq!(bt.find_range(&-5, &0), vec![(0, 0)]);
    assert_eq!(bt.find_range(&9999, &20000), vec![(9999, 29997)]);
}

#[test]
fn find_range_skips_tombstones_across_leaves() {
    let mut bt: BTree<i32, i32> = BTree::new(3, true);
    for k in 0..40 {
        assert!(bt.insert(k, 10 * k).is_ok());
    }
    for k in (0..40).step_by(2) {
        assert_eq!(bt.delete(&k), Ok(1));
    }
    let kvs = bt.find_range(&0, &39);
    let expected: Vec<(i32, i32)> = (0..40).filter(|k| k % 2 == 1).map(|k| (k, 10 * k)).collect();
    assert_eq!(kvs, expected);
    for k in 0..40 {
        let want = if k % 2 == 1 { Some(10 * k) } else { None };
        assert_eq!(bt.find(&k), want);
    }
}

#[test]
fn delete_of_absent_key_fails() {
    let mut bt: BTree<i32, i32> = BTree::new(5, true);
    assert_eq!(bt.delete(&1), Err(KeyNotFoundError));
    assert!(bt.insert(1, 10).is_ok());
    assert_eq!(bt.delete(&2), Err(KeyNotFoundError));
    assert_eq!(bt.delete(&1), Ok(1));
    assert_eq!(bt.find(&1), None);
}

#[test]
fn delete_counts_every_entry_of_the_key() {
    let mut bt: BTree<i32, i32> = BTree::new(3, false);
    for v in 0..7 {
        assert!(bt.insert(4, v).is_ok());
    }
    assert!(bt.insert(3, 30).is_ok());
    assert!(bt.insert(5, 50).is_ok());
    assert_eq!(bt.delete(&4), Ok(7));
    assert_eq!(bt.find(&4), None);
    assert_eq!(bt.find_range(&0, &10), vec![(3, 30), (5, 50)]);
    assert_eq!(bt.find(&3), Some(30));
    assert_eq!(bt.find(&5), Some(50));
}

#[test]
fn entries_of_one_key_keep_the_order_in_which_they_came() {
    let mut bt: BTree<i32, i32> = BTree::new(27, false);
    for (k, v) in [(5, 50), (6, 60), (7, -70), (7, 70), (8, 80)] {
        assert!(bt.insert(k, v).is_ok());
    }
    assert_eq!(bt.find_range(&5, &8), vec![(5, 50), (6, 60), (7, -70), (7, 70), (8, 80)]);
    assert!(bt.insert(7, 7).is_ok());
    assert_eq!(bt.find_range(&7, &7), vec![(7, -70), (7, 70), (7, 7)]);
    assert_eq!(bt.find(&7), Some(7));
}

#[test]
fn a_lookup_passes_over_older_tombstones_of_its_key() {
    let mut bt: BTree<i32, i32> = BTree::new(27, false);
    assert!(bt.insert(7, -70).is_ok());
    assert!(bt.insert(7, 70).is_ok());
    assert!(bt.insert(9, 90).is_ok());
    assert_eq!(bt.find(&7), Some(70));
    assert_eq!(bt.delete(&7), Ok(2));
    assert_eq!(bt.delete(&9), Ok(1));
    assert_eq!(bt.find(&7), None);
    assert!(bt.insert(7, 700).is_ok());
    assert_eq!(bt.read_page(0).ok().unwrap().keys, vec![7, 7, 7]);
    assert_eq!(bt.read_page(0).ok().unwrap().deleted, vec![true, true, false]);
    assert_eq!(bt.find(&7), Some(700));
    assert_eq!(bt.find_range(&7, &7), vec![(7, 700)]);
    assert_eq!(bt.delete(&7), Ok(3));
    assert_eq!(bt.find(&7), None);
}

#[test]
fn reinsert_after_delete_gives_the_new_value() {
    let mut bt: BTree<i32, i32> = BTree::new(5, true);
    assert!(bt.insert(5, 55).is_ok());
    assert_eq!(bt.insert(5, 555), Err(DuplicateKeyError));
    assert_eq!(bt.find(&5), Some(55));
    assert_eq!(bt.delete(&5), Ok(1));
    assert!(bt.insert(5, 555).is_ok());
    assert_eq!(bt.find(&5), Some(555));
    assert_eq!(bt.find_range(&0, &9), vec![(5, 555)]);
}

#[test]
fn descending_inserts_split_to_the_left() {
    let mut bt: BTree<i32, i32> = BTree::new(3, true);
    for k in (0..200).rev() {
        assert!(bt.insert(k, -k).is_ok());
    }
    for k in 0..200 {
        assert_eq!(bt.find(&k), Some(-k));
    }
    let all = bt.find_range(&i32::MIN, &i32::MAX);
    let expected: Vec<(i32, i32)> = (0..200).map(|k| (k, -k)).collect();
    assert_eq!(all, expected);
}

#[test]
fn duplicates_straddle_leaves() {
    let mut bt: BTree<i32, i32> = BTree::new(3, false);
    for v in 0..20 {
        assert!(bt.insert(1, v).is_ok());
        assert!(bt.insert(2, 100 + v).is_ok());
    }
    let ones = bt.find_range(&1, &1);
    assert_eq!(ones.len(), 20);
    assert!(ones.iter().all(|&(k, v)| k == 1 && (0..20).contains(&v)));
    assert_eq!(bt.find_range(&1, &2).len(), 40);
    assert_eq!(bt.delete(&1), Ok(20));
    assert_eq!(bt.find_range(&1, &2).len(), 20);
    assert_eq!(bt.find(&1), None);
    assert!(bt.find(&2).is_some());
}

#[test]
fn traverse_lists_the_pages_level_by_level() {
    let mut bt: BTree<i32, i32> = BTree::new(3, true);
    assert_eq!(bt.traverse(), vec![vec![0]]);
    assert!(bt.has_room());
    for k in 1..=3 {
        assert!(bt.insert(k, k).is_ok());
    }
    assert_eq!(bt.traverse(), vec![vec![2], vec![0, 1]]);
    for k in 4..=7 {
        assert!(bt.insert(k, k).is_ok());
    }
    let rows = bt.traverse();
    assert_eq!(rows.len(), 3);
    assert_eq!(rows[0].len(), 1);
    assert_eq!(rows[1].len(), 2);
    assert_eq!(rows[2], vec![0, 1, 3, 4]);
    let mut all: Vec<u32> = rows.concat();
    all.sort();
    assert_eq!(all, (0..7).collect::<Vec<u32>>());
    for k in 1..=7 {
        assert_eq!(bt.find(&k), Some(k));
    }
}

fn leaves_in_chain(bt: &mut BTree<i32, i32>) -> Vec<u32> {
    let rows = bt.traverse();
    let mut chain = vec![];
    let mut next = Some(rows.last().unwrap()[0]);
    while let Some(id) = next {
        chain.push(id);
        next = bt.read_page(id).ok().unwrap().sibling;
    }
    chain
}

#[test]
fn every_page_holds_fewer_keys_than_the_branching_factor() {
    for b in [3usize, 5, 7, 33] {
        for unique in [true, false] {
            let mut bt: BTree<i32, i32> = BTree::new(b, unique);
            for k in 0..500 {
                let key = (k * 7919) % 1009;
                let _ = bt.insert(key, k);
                if k % 5 == 0 {
                    let _ = bt.delete(&((k * 31) % 1009));
                }
            }
            let rows = bt.traverse();
            let mut count = 0;
            for row in rows.iter() {
                for &id in row.iter() {
                    let page = bt.read_page(id).ok().unwrap();
                    assert!(page.keys.len() < b, "page {} of b = {}", id, b);
                    assert_eq!(page.id, id);
                    count += 1;
                }
            }
            let mut id = 0;
            while bt.read_page(id).is_ok() {
                id += 1;
            }
            assert_eq!(count, id);
            assert_eq!(bt.read_page(id).err(), Some(PageNotFoundError));
        }
    }
}

#[test]
fn the_leaf_chain_visits_every_live_entry_in_key_order() {
    for unique in [true, false] {
        let mut bt: BTree<i32, i32> = BTree::new(5, unique);
        for k in 0..300 {
            let key = (k * 7919) % 211;
            let _ = bt.insert(key, k);
            if k % 4 == 0 {
                let _ = bt.delete(&((k * 31) % 211));
            }
        }
        let rows = bt.traverse();
        let chain = leaves_in_chain(&mut bt);
        assert_eq!(&chain, rows.last().unwrap());
        let mut walked = vec![];
        for &id in chain.iter() {
            let page = bt.read_page(id).ok().unwrap();
            assert_eq!(page.keys.len(), page.vals.len());
            assert_eq!(page.keys.len(), page.deleted.len());
            for i in 0..page.keys.len() {
                if !page.deleted[i] {
                    walked.push((page.keys[i], page.vals[i]));
                }
            }
        }
        assert!(walked.windows(2).all(|w| w[0].0 <= w[1].0));
        if unique {
            assert!(walked.windows(2).all(|w| w[0].0 < w[1].0));
        }
        assert_eq!(walked, bt.find_range(&i32::MIN, &i32::MAX));
        assert!(!walked.is_empty());
    }
}

#[test]
fn a_leaf_is_split_at_its_middle_key() {
    let mut bt: BTree<i32, i32> = BTree::new(5, true);
    for k in [10, 20, 30, 40] {
        assert!(bt.insert(k, k).is_ok());
    }
    assert_eq!(bt.traverse(), vec![vec![0]]);
    assert!(bt.insert(50, 50).is_ok());
    assert_eq!(bt.traverse(), vec![vec![2], vec![0, 1]]);
    let left = bt.read_page(0).ok().unwrap();
    let right = bt.read_page(1).ok().unwrap();
    let root = bt.read_page(2).ok().unwrap();
    assert_eq!(left.keys, vec![10, 20, 30]);
    assert_eq!(left.sibling, Some(1));
    assert_eq!(right.keys, vec![40, 50]);
    assert_eq!(right.vals, vec![40, 50]);
    assert_eq!(right.sibling, None);
    assert_eq!(root.keys, vec![30]);
    assert_eq!(root.children, vec![0, 1]);
    assert!(root.vals.is_empty());
}

#[test]
fn an_insert_drops_the_last_tombstone_of_its_leaf() {
    let mut bt: BTree<i32, i32> = BTree::new(7, true);
    for k in [1, 2, 3, 4] {
        assert!(bt.insert(k, k).is_ok());
    }
    assert_eq!(bt.delete(&2), Ok(1));
    assert_eq!(bt.delete(&4), Ok(1));
    assert_eq!(bt.read_page(0).ok().unwrap().deleted, vec![false, true, false, true]);
    assert!(bt.insert(0, 0).is_ok());
    let page = bt.read_page(0).ok().unwrap();
    assert_eq!(page.keys, vec![0, 1, 2, 3]);
    assert_eq!(page.deleted, vec![false, false, true, false]);
    assert!(bt.insert(2, 22).is_ok());
    let page = bt.read_page(0).ok().unwrap();
    assert_eq!(page.keys, vec![0, 1, 2, 3]);
    assert_eq!(page.vals, vec![0, 1, 22, 3]);
    assert_eq!(page.deleted, vec![false; 4]);
    assert_eq!(bt.delete(&9), Err(KeyNotFoundError));
}

#[test]
fn an_index_over_a_given_store() {
    let mut bt: BTree<i32, i32, MemPager<i32, i32>> = BTree::with_pager(3, false, MemPager::new());
    assert!(bt.has_room());
    for k in 0..50 {
        assert!(bt.insert(k % 10, k).is_ok());
    }
    assert_eq!(bt.find_range(&0, &9).len(), 50);
    let found = bt.find(&3).unwrap();
    assert!(found % 10 == 3 && found < 50);
    let threes: Vec<i32> = bt.find_range(&3, &3).into_iter().map(|(_, v)| v).collect();
    assert_eq!(threes.len(), 5);
    assert!(threes.iter().all(|v| v % 10 == 3));
    assert_eq!(bt.delete(&3), Ok(5));
    assert_eq!(bt.delete(&3), Ok(5));
    assert_eq!(bt.find(&3), None);
}

#[test]
fn a_root_leaf_is_split_below_a_new_root() {
    let mut bt: BTree<i32, i32> = BTree::new(3, true);
    assert!(bt.insert(5, 55).is_ok());
    assert!(bt.insert(6, 66).is_ok());
    assert_eq!(bt.traverse(), vec![vec![0]]);
    assert!(bt.insert(7, 77).is_ok());
    assert_eq!(bt.traverse(), vec![vec![2], vec![0, 1]]);
    let root = bt.read_page(2).ok().unwrap();
    assert_eq!((root.keys, root.children), (vec![6], vec![0, 1]));
    let left = bt.read_page(0).ok().unwrap();
    assert_eq!((left.keys, left.vals, left.sibling), (vec![5, 6], vec![55, 66], Some(1)));
    let right = bt.read_page(1).ok().unwrap();
    assert_eq!((right.keys, right.vals, right.sibling), (vec![7], vec![77], None));
    assert!(bt.read_page(3).is_err());
    assert_eq!(bt.insert(7, 0), Err(DuplicateKeyError));
    assert_eq!(bt.traverse(), vec![vec![2], vec![0, 1]]);
    assert!(bt.read_page(3).is_err());
    assert_eq!(bt.delete(&9), Err(KeyNotFoundError));
    assert_eq!(bt.delete(&6), Ok(1));
    let left = bt.read_page(0).ok().unwrap();
    assert_eq!((left.keys, left.vals, left.deleted), (vec![5, 6], vec![55, 66], vec![false, true]));
    assert_eq!(bt.traverse(), vec![vec![2], vec![0, 1]]);
}

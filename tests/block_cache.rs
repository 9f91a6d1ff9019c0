use std::cell::RefCell;

use kernel_core::block_cache::{BlockCacheManager, BlockDevice, BLOCK_CACHE_SIZE};

struct RamDisk {
    blocks: RefCell<Vec<Vec<u8>>>,
    writes: RefCell<Vec<usize>>,
}

impl RamDisk {
    fn new(n: usize) -> Self {
        RamDisk {
            blocks: RefCell::new((0..n).map(|i| vec![i as u8; 512]).collect()),
            writes: RefCell::new(Vec::new()),
        }
    }
}

impl BlockDevice for RamDisk {
    fn read_block(&self, block_id: usize, buf: &mut Vec<u8>) {
        buf.copy_from_slice(&self.blocks.borrow()[block_id]);
    }

    fn write_block(&self, block_id: usize, buf: &Vec<u8>) {
        self.blocks.borrow_mut()[block_id] = buf.clone();
        self.writes.borrow_mut().push(block_id);
    }
}

#[test]
fn cached_block_is_reused() {
    let disk = RamDisk::new(40);
    let mut m = BlockCacheManager::new();
    let a = m.get_block_cache(5, &disk);
    let b = m.get_block_cache(5, &disk);
    assert_eq!(a, b);
    assert_eq!(m.queue.len(), 1);
    assert_eq!(m.queue[a].refs, 2);
    assert_eq!(m.queue[a].cache[0], 5);
}

#[test]
fn full_cache_evicts_oldest_unheld_block_and_writes_it_back() {
    let disk = RamDisk::new(40);
    let mut m = BlockCacheManager::new();
    for id in 0..BLOCK_CACHE_SIZE {
        let i = m.get_block_cache(id, &disk);
        if id != 0 {
            m.release(i);
        }
    }
    // Block 0 is still held; block 1 is the oldest that nobody holds.
    m.queue[1].cache[0] = 99;
    m.queue[1].modified = true;
    let i = m.get_block_cache(30, &disk);
    assert_eq!(m.queue.len(), BLOCK_CACHE_SIZE);
    assert_eq!(m.queue[i].block_id, 30);
    let ids: Vec<usize> = m.queue.iter().map(|b| b.block_id).collect();
    assert!(!ids.contains(&1));
    assert!(ids.contains(&0));
    assert_eq!(*disk.writes.borrow(), vec![1]);
    assert_eq!(disk.blocks.borrow()[1][0], 99);
}

#[test]
fn sync_all_writes_modified_blocks_once() {
    let disk = RamDisk::new(8);
    let mut m = BlockCacheManager::new();
    let a = m.get_block_cache(2, &disk);
    let _b = m.get_block_cache(3, &disk);
    m.queue[a].modified = true;
    m.sync_all(&disk);
    m.sync_all(&disk);
    assert_eq!(*disk.writes.borrow(), vec![2]);
    assert!(m.queue.iter().all(|b| !b.modified));
}

use prescient::backend::Batch;
use std::cell::Cell;
use std::rc::Rc;
use std::sync::atomic::{AtomicUsize, Ordering};

#[test]
fn batch_borrowed_suffix_clear_and_reuse() {
    let mut batch = Batch::default();
    assert!(batch.is_empty());
    assert!(batch.as_slice().is_empty());
    for value in ["a", "b", "c"] {
        batch.push_back(String::from(value));
    }
    assert_eq!(batch.pop_front().unwrap(), "a");
    batch.push_back(String::from("d"));
    assert_eq!(batch.len(), 3);
    assert_eq!(batch.as_slice(), ["b", "c", "d"]);
    batch.clear();
    assert!(batch.is_empty());
    assert!(batch.as_slice().is_empty());
    batch.push_back(String::from("reused"));
    assert_eq!(batch.pop_front().unwrap(), "reused");
}

#[test]
fn staging_fifo_and_allocation_reuse() {
    let mut staging = Batch::new();
    for n in [0usize, 1, 3, 64, 4096, 3, 1, 0] {
        staging.clear();
        for value in 0..n {
            staging.push_back(value);
        }
        for value in 0..n {
            assert_eq!(staging.pop_front(), Some(value));
        }
        assert_eq!(staging.pop_front(), None);
        staging.clear();
        for value in 0..n {
            staging.push_back(value);
        }
        for value in 0..n {
            assert_eq!(staging.pop_front(), Some(value));
        }
    }
}

static DROPS: AtomicUsize = AtomicUsize::new(0);

struct Zst;

impl Drop for Zst {
    fn drop(&mut self) {
        DROPS.fetch_add(1, Ordering::Relaxed);
    }
}

#[test]
fn staging_zero_sized_values_are_dropped_once() {
    let mut staging = Batch::new();
    for _ in 0..64 {
        staging.push_back(Zst);
    }
    for _ in 0..17 {
        drop(staging.pop_front().unwrap());
    }
    drop(staging);
    assert_eq!(DROPS.load(Ordering::Relaxed), 64);
}

struct Aligned([u64; 32]);

#[test]
fn staging_overaligned_values_keep_alignment() {
    let mut staging = Batch::new();
    for n in 0..100 {
        staging.push_back(Aligned([n; 32]));
    }
    for n in 0..100 {
        assert_eq!(staging.pop_front().unwrap().0[31], n);
    }
}

struct Counted {
    id: usize,
    drops: Rc<Vec<Cell<usize>>>,
}

impl Drop for Counted {
    fn drop(&mut self) {
        self.drops[self.id].set(self.drops[self.id].get() + 1);
    }
}

#[test]
fn staging_drops_consumed_and_unconsumed_values_once() {
    let drops = Rc::new((0..8).map(|_| Cell::new(0)).collect::<Vec<_>>());
    let mut staging = Batch::new();
    for id in 0..8 {
        staging.push_back(Counted { id, drops: Rc::clone(&drops) });
    }
    drop(staging.pop_front().unwrap());
    drop(staging.pop_front().unwrap());
    drop(staging);
    assert!(drops.iter().all(|count| count.get() == 1));
}

#[test]
fn restoring_undoes_popping() {
    let mut staging = Batch::new();
    for value in 0..5 {
        staging.push_back(value);
    }
    let first = staging.pop_front().unwrap();
    staging.restore_front(first);
    assert_eq!(staging.as_slice(), [0, 1, 2, 3, 4]);
}

use prescient::backend::ring::{build, halves, ring, InboxStack, Inner};
use prescient::backend::Batch;
use std::cell::Cell;
use std::rc::Rc;

#[test]
fn recycled_cursors_restart_after_mixed_operations() {
    for capacity in [1usize, 2, 8] {
        let (mut inner, mut tx, mut rx) = ring::<Box<usize>>(capacity);
        for epoch in 0..8 {
            for value in 0..capacity {
                assert!(tx.try_push(&mut inner, Box::new(epoch * capacity + value)).is_ok());
            }
            assert!(rx.recycle(&mut inner).is_none(), "live producer prevents recycling");
            tx.close(&mut inner);
            assert_eq!(*rx.try_pop(&mut inner).unwrap(), epoch * capacity);
            let mut rest: Vec<Box<usize>> = Vec::new();
            rx.drain_in_place(&mut inner, capacity, &mut rest);
            assert!(rx.is_finished(&inner));
            tx = rx.recycle(&mut inner).unwrap();
            assert_eq!(inner.cursors(), (0, 0));
            assert!(rx.is_empty(&inner));
        }
    }
}

#[test]
fn inbox_restores_partially_consumed_and_empty_positions() {
    for unread in [0usize, 2] {
        let mut stack = InboxStack::new();
        let (inner, mut tx, mut rx) = ring::<Box<usize>>(4);
        let mut rings: Vec<Inner<Box<usize>>> = vec![inner];
        for value in 0..4 {
            assert!(tx.try_push(&mut rings[0], Box::new(value)).is_ok());
        }
        for expected in 0..4 - unread {
            assert_eq!(*rx.try_pop(&mut rings[0]).unwrap(), expected);
        }
        for _ in 0..2 {
            stack.push(0, rx);
            let mut received = stack.drain_with(&rings);
            assert_eq!(received.len(), 1);
            let (id, back) = received.pop().unwrap();
            assert_eq!(id, 0);
            rx = back;
            assert_eq!(rx.is_empty(&rings[0]), unread == 0);
        }
        for expected in 4 - unread..4 {
            assert_eq!(*rx.try_pop(&mut rings[0]).unwrap(), expected);
        }
        assert!(rx.try_pop(&mut rings[0]).is_none());
        assert!(tx.try_push(&mut rings[0], Box::new(4)).is_ok());
        assert_eq!(*rx.try_pop(&mut rings[0]).unwrap(), 4);
        stack.push(0, rx);
        stack.close(&mut rings);
        assert!(tx.is_consumer_gone(&rings[0]));
    }
}

#[test]
fn inbox_drop_reclaims_only_remaining_values() {
    let mut stack = InboxStack::new();
    let (inner, mut tx, mut rx) = ring::<Box<usize>>(4);
    let mut rings: Vec<Inner<Box<usize>>> = vec![inner];
    for value in 0..4 {
        assert!(tx.try_push(&mut rings[0], Box::new(value)).is_ok());
    }
    assert_eq!(*rx.try_pop(&mut rings[0]).unwrap(), 0);
    stack.push(0, rx);
    stack.close(&mut rings);
    assert!(tx.is_consumer_gone(&rings[0]));
}

#[test]
fn masked_slots_and_all_operations_across_counter_wrap() {
    for capacity in [0usize, 1, 2, 3, 7, 8, 31, 1023, 1024] {
        let cap = capacity.max(1).next_power_of_two();
        let base = usize::MAX - (cap - 1);
        let mut inner = build::<usize>(capacity, base);
        assert_eq!(inner.slots(), cap);
        for cursor in [0, 1, cap - 1, cap, usize::MAX - 1, usize::MAX] {
            assert_eq!(inner.slot(cursor), cursor & (cap - 1));
        }
        let (mut tx, mut rx) = halves(&inner);
        for round in 0..4 {
            for index in 0..cap {
                let value = round * cap + index;
                assert_eq!(tx.try_push(&mut inner, value), Ok(()));
            }
            assert!(tx.try_push(&mut inner, usize::MAX).is_err());
            let mut values: Vec<usize> = Vec::new();
            match round {
                0 | 1 => {
                    for _ in 0..cap {
                        values.push(rx.try_pop(&mut inner).unwrap());
                    }
                }
                2 => {
                    assert_eq!(rx.drain_in_place(&mut inner, cap, &mut values), cap);
                }
                _ => {
                    assert_eq!(rx.drain_in_place_async(&mut inner, cap, &mut values), (cap, true));
                }
            }
            assert_eq!(values, (round * cap..(round + 1) * cap).collect::<Vec<_>>());
            assert!(rx.try_pop(&mut inner).is_none());
        }
    }
}

#[test]
fn masked_zero_sized_slots() {
    let (mut inner, mut tx, mut rx) = ring::<()>(3);
    for _ in 0..8 {
        for _ in 0..4 {
            assert!(tx.try_push(&mut inner, ()).is_ok());
        }
        assert!(tx.try_push(&mut inner, ()).is_err());
        let mut out: Vec<()> = Vec::new();
        assert_eq!(rx.drain_in_place(&mut inner, 4, &mut out), 4);
    }
}

#[test]
fn bulk_wrap_prefix_and_partial_counts() {
    for cap in [1usize, 2, 4, 64] {
        let mut inner = build::<String>(cap, usize::MAX - 1);
        let (mut tx, mut rx) = halves(&inner);
        let mut next = 0;
        for round in 0..8 {
            for id in next..next + cap {
                assert!(tx.try_push(&mut inner, format!("item-{id}")).is_ok());
            }
            assert!(tx.try_push(&mut inner, String::from("full")).is_err());
            let mut out = Batch::new();
            out.push_back(String::from("consumed"));
            assert_eq!(out.pop_front().unwrap(), "consumed");
            out.push_back(String::from("prefix"));
            assert_eq!(rx.drain_into(&mut inner, 0, &mut out), 0);
            assert_eq!(out.as_slice(), ["prefix"]);
            let mut got = 0;
            while got < cap {
                let n = rx.drain_into(&mut inner, (round % 3) + 1, &mut out);
                assert!(n > 0);
                got += n;
            }
            assert_eq!(out.len(), cap + 1);
            for id in 0..cap {
                assert_eq!(out.as_slice()[id + 1], format!("item-{}", next + id));
            }
            assert_eq!(rx.drain_into(&mut inner, usize::MAX, &mut out), 0);
            next += cap;
        }
        tx.close(&mut inner);
        assert!(rx.is_finished(&inner));
    }
}

struct Value {
    id: usize,
    owned: Box<usize>,
    drops: Rc<Vec<Cell<usize>>>,
}

impl Drop for Value {
    fn drop(&mut self) {
        assert_eq!(*self.owned, self.id);
        self.drops[self.id].set(self.drops[self.id].get() + 1);
    }
}

fn value(id: usize, drops: &Rc<Vec<Cell<usize>>>) -> Value {
    Value { id, owned: Box::new(id), drops: Rc::clone(drops) }
}

#[test]
fn bulk_noncopy_aligned_values_drop_once() {
    let drops = Rc::new((0..9).map(|_| Cell::new(0)).collect::<Vec<_>>());
    let (mut inner, mut tx, mut rx) = ring(8);
    for id in 0..8 {
        assert!(tx.try_push(&mut inner, value(id, &drops)).is_ok());
    }
    let mut out = Batch::new();
    out.push_back(value(8, &drops));
    assert_eq!(rx.drain_into(&mut inner, 3, &mut out), 3);
    for value in out.as_slice() {
        assert_eq!(*value.owned, value.id);
    }
    drop(out);
    tx.close(&mut inner);
    rx.disconnect(&mut inner);
    drop(inner);
    assert!(drops.iter().all(|n| n.get() == 1));
}

struct Unit(Rc<Cell<usize>>);

impl Drop for Unit {
    fn drop(&mut self) {
        self.0.set(self.0.get() + 1);
    }
}

#[test]
fn bulk_zst_ownership() {
    let drops = Rc::new(Cell::new(0));
    let (mut inner, mut tx, mut rx) = ring(4);
    for _ in 0..4 {
        assert!(tx.try_push(&mut inner, Unit(Rc::clone(&drops))).is_ok());
    }
    let mut out = Batch::new();
    assert_eq!(rx.drain_into(&mut inner, 3, &mut out), 3);
    drop(out);
    tx.close(&mut inner);
    rx.disconnect(&mut inner);
    drop(inner);
    assert_eq!(drops.get(), 4);
}

#[test]
fn publish_wrap_overflow_partial_and_moved_prefix() {
    for cap in [1usize, 2, 4, 64] {
        let mut inner = build::<String>(cap, usize::MAX - 1);
        let (mut tx, mut rx) = halves(&inner);
        for round in 0..8 {
            let mut source = Batch::new();
            source.push_back(String::from("moved prefix"));
            assert_eq!(source.pop_front().unwrap(), "moved prefix");
            for id in 0..cap + 3 {
                source.push_back(format!("{round}:{id}"));
            }
            let cursors = inner.cursors();
            assert_eq!(tx.push_from(&mut inner, 0, &mut source), 0);
            assert_eq!(inner.cursors(), cursors);
            let mut got = Vec::new();
            while !source.is_empty() {
                let before = source.len();
                let n = tx.push_from(&mut inner, cap, &mut source);
                assert_eq!(before - source.len(), n);
                assert!(n > 0);
                if n == cap {
                    assert_eq!(tx.push_from(&mut inner, 1, &mut source), 0);
                }
                let first = (round % 3 + 1).min(n);
                for _ in 0..first {
                    got.push(rx.try_pop(&mut inner).unwrap());
                }
                let extra = tx.push_from(&mut inner, 1, &mut source);
                for _ in 0..n - first + extra {
                    got.push(rx.try_pop(&mut inner).unwrap());
                }
            }
            assert_eq!(got, (0..cap + 3).map(|id| format!("{round}:{id}")).collect::<Vec<_>>());
            assert!(rx.try_pop(&mut inner).is_none());
            assert_eq!(tx.push_from(&mut inner, usize::MAX, &mut source), 0);
            assert!(tx.try_push(&mut inner, String::from("scalar")).is_ok());
            assert_eq!(rx.try_pop(&mut inner).unwrap(), "scalar");
        }
    }
}

#[test]
fn publish_noncopy_alignment_and_abandoned_values_drop_once() {
    let drops = Rc::new((0..12).map(|_| Cell::new(0)).collect::<Vec<_>>());
    let mut source = Batch::new();
    for id in 0..12 {
        source.push_back(value(id, &drops));
    }
    drop(source.pop_front());
    let (mut inner, mut tx, mut rx) = ring(4);
    assert_eq!(tx.push_from(&mut inner, 3, &mut source), 3);
    drop(rx.try_pop(&mut inner));
    assert_eq!(tx.push_from(&mut inner, 4, &mut source), 1);
    drop(rx.try_pop(&mut inner));
    assert_eq!(tx.push_from(&mut inner, 4, &mut source), 2);
    rx.disconnect(&mut inner);
    let _ = tx.push_from(&mut inner, 4, &mut source);
    tx.close(&mut inner);
    drop(inner);
    drop(source);
    assert!(drops.iter().all(|n| n.get() == 1));
}

#[test]
fn publish_zst_ownership() {
    let drops = Rc::new(Cell::new(0));
    let mut source = Batch::new();
    for _ in 0..11 {
        source.push_back(Unit(Rc::clone(&drops)));
    }
    let (mut inner, mut tx, mut rx) = ring(4);
    assert_eq!(tx.push_from(&mut inner, 3, &mut source), 3);
    drop(rx.try_pop(&mut inner));
    assert_eq!(tx.push_from(&mut inner, 4, &mut source), 1);
    drop(rx.try_pop(&mut inner));
    assert_eq!(tx.push_from(&mut inner, 4, &mut source), 2);
    drop(source);
    tx.close(&mut inner);
    rx.disconnect(&mut inner);
    drop(inner);
    assert_eq!(drops.get(), 11);
}

#[test]
fn loom_owned_batch_publication_reuse() {
    for schedule in 0..1u32 << 10 {
        let (mut inner, mut tx, mut rx) = ring::<u32>(2);
        let mut source = Batch::new();
        for value in 0..3 {
            source.push_back(value);
        }
        let mut out = Batch::new();
        for turn in 0..32 {
            if schedule >> (turn % 10) & 1 == 0 || turn % 2 == 0 {
                tx.push_from(&mut inner, 2, &mut source);
            } else {
                rx.drain_into(&mut inner, 2, &mut out);
            }
        }
        while out.len() < 3 {
            tx.push_from(&mut inner, 2, &mut source);
            rx.drain_into(&mut inner, 2, &mut out);
        }
        assert_eq!(out.as_slice(), [0, 1, 2]);
    }
}

fn exchange(capacity: usize, count: u32, schedule: u32, bulk: bool) -> Vec<u32> {
    let (mut inner, mut tx, mut rx) = ring::<u32>(capacity);
    let mut next = 1;
    let mut got = Vec::new();
    let mut turn = 0;
    while got.len() < count as usize {
        if turn >= 12 || schedule >> turn & 1 == 0 {
            if next <= count && tx.try_push(&mut inner, next).is_ok() {
                next += 1;
            }
        }
        if turn >= 12 || schedule >> turn & 1 == 1 {
            if bulk {
                rx.drain_in_place(&mut inner, 2, &mut got);
            } else if let Some(value) = rx.try_pop(&mut inner) {
                got.push(value);
            }
        }
        turn += 1;
    }
    got
}

#[test]
fn loom_handoff_no_reuse() {
    for schedule in 0..1u32 << 12 {
        assert_eq!(exchange(4, 2, schedule, false), vec![1, 2]);
    }
}

#[test]
fn loom_slot_reuse() {
    for schedule in 0..1u32 << 12 {
        assert_eq!(exchange(2, 3, schedule, false), vec![1, 2, 3]);
    }
}

#[test]
fn loom_drain_in_place_reuse() {
    for schedule in 0..1u32 << 12 {
        assert_eq!(exchange(2, 3, schedule, true), vec![1, 2, 3]);
    }
}

#[test]
fn loom_drain_into_reuse() {
    for schedule in 0..1u32 << 12 {
        let (mut inner, mut tx, mut rx) = ring::<u32>(2);
        let mut next = 1;
        let mut out = Batch::new();
        let mut turn = 0;
        while out.len() < 3 {
            if turn >= 12 || schedule >> turn & 1 == 0 {
                if next <= 3 && tx.try_push(&mut inner, next).is_ok() {
                    next += 1;
                }
            }
            if turn >= 12 || schedule >> turn & 1 == 1 {
                rx.drain_into(&mut inner, 2, &mut out);
            }
            turn += 1;
        }
        assert_eq!(out.as_slice(), [1, 2, 3]);
    }
}

#[test]
fn loom_teardown_drops_every_value() {
    for teardown in 0..3 {
        let live = Rc::new(Cell::new(0));
        let (mut inner, mut tx, rx) = ring::<Unit>(1);
        let mut rx = Some(rx);
        for turn in 0..3 {
            if turn == teardown {
                rx.take().unwrap().disconnect(&mut inner);
            }
            if turn < 2 {
                let _ = tx.try_push(&mut inner, Unit(Rc::clone(&live)));
            }
        }
        tx.close(&mut inner);
        drop(inner);
        assert_eq!(live.get(), 2, "a value was stranded/leaked");
    }
}

#[test]
fn values_leave_in_the_order_they_came() {
    let (mut inner, mut tx, mut rx) = ring::<u32>(4);
    assert!(tx.try_push(&mut inner, 1).is_ok());
    assert!(tx.try_push(&mut inner, 2).is_ok());
    assert_eq!(rx.try_pop(&mut inner), Some(1));
    assert!(tx.try_push(&mut inner, 3).is_ok());
    assert_eq!(rx.try_pop(&mut inner), Some(2));
    assert_eq!(rx.try_pop(&mut inner), Some(3));
    assert_eq!(rx.try_pop(&mut inner), None);
}

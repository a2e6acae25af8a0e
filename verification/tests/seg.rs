use prescient::backend::{Backend, Batch, Rx, Seg, Tx};

#[test]
fn segments_grow_and_keep_the_order() {
    let (mut link, mut tx, mut rx) = <Seg as Backend<u32>>::channel(4);
    for value in 0..100 {
        assert!(tx.try_push(&mut link, value).is_ok());
    }
    for value in 0..50 {
        assert_eq!(rx.try_pop(&mut link), Some(value));
    }
    let mut out = Batch::new();
    let mut got = 0;
    while got < 50 {
        let n = rx.drain_into(&mut link, 64, &mut out);
        assert!(n > 0);
        got += n;
    }
    assert_eq!(out.as_slice(), (50..100).collect::<Vec<_>>());
    assert!(rx.is_empty(&link));
    assert!(!rx.is_finished(&link));
    tx.close(&mut link);
    assert!(rx.is_finished(&link));
}

use casein::channel::Receiver;

#[test]
fn values_drain_in_send_order() {
    let mut rx: Receiver<u32> = Receiver::new();
    let mut tx1 = rx.sender();
    tx1.send(1);
    rx.reclaim(tx1);
    let mut tx2 = rx.sender();
    tx2.send(2);
    tx2.send(3);
    rx.reclaim(tx2);
    assert_eq!(rx.poll(), vec![1, 2, 3]);
    assert_eq!(rx.poll(), Vec::<u32>::new());
}

#[test]
fn polling_an_untouched_channel_yields_nothing() {
    let mut rx: Receiver<u64> = Receiver::new();
    assert_eq!(rx.poll(), Vec::<u64>::new());
}

#[test]
fn sending_resumes_after_a_drain() {
    let mut rx: Receiver<&'static str> = Receiver::new();
    let mut tx = rx.sender();
    tx.send("first");
    rx.reclaim(tx);
    assert_eq!(rx.poll(), vec!["first"]);
    let mut tx = rx.sender();
    tx.send("second");
    rx.reclaim(tx);
    assert_eq!(rx.poll(), vec!["second"]);
}

use tokio_experiments::poll::{doubled, Async, IntervalFut, MyOk, PollMeNTimes, Poller, TimeoutStream};

#[test]
fn poller_is_ready_at_once() {
    let mut p = Poller;
    assert_eq!(p.poll(), Async::Ready(()));
    assert_eq!(p.poll(), Async::Ready(()));
}

#[test]
fn poll_me_n_times_counts_down() {
    let mut f = PollMeNTimes { n: 3, answer: 'x' };
    assert_eq!(f.poll(), Async::NotReady);
    assert_eq!(f.n, 2);
    assert_eq!(f.poll(), Async::NotReady);
    assert_eq!(f.poll(), Async::NotReady);
    assert_eq!(f.n, 0);
    assert_eq!(f.poll(), Async::Ready('x'));
    assert_eq!(f.poll(), Async::Ready('x'));
    assert_eq!(f.n, 0);
}

#[test]
fn my_ok_is_ready_once() {
    let mut f = MyOk::new(String::from("Alice"));
    assert_eq!(f.poll(), Async::Ready(String::from("Alice")));
    assert_eq!(f.poll(), Async::NotReady);
    assert_eq!(f.poll(), Async::NotReady);
    assert!(f.0.is_none());
}

#[test]
fn interval_future_reports_each_tick_once() {
    let mut f = IntervalFut::new(4);
    assert_eq!(f.poll(4), Async::NotReady);
    assert_eq!(f.poll(5), Async::Ready(5));
    assert_eq!(f.poll(5), Async::NotReady);
    assert_eq!(f.poll(9), Async::Ready(9));
    assert_eq!(f.poll(0), Async::Ready(0));
}

#[test]
fn timeout_stream_yields_each_tick_and_never_ends() {
    let mut s = TimeoutStream::new(0);
    assert_eq!(s.poll(0), Async::NotReady);
    assert_eq!(s.poll(1), Async::Ready(Some(1)));
    assert_eq!(s.poll(1), Async::NotReady);
    assert_eq!(s.poll(3), Async::Ready(Some(3)));
}

#[test]
fn doubled_counter() {
    assert_eq!(doubled(0), 0);
    assert_eq!(doubled(21), 42);
    assert_eq!(doubled(usize::MAX / 2), usize::MAX - 1);
}

// The hand written futures, driven by a tokio-core event loop.

use futures::{Future, Poll};
use tokio_core::reactor::Core;
use tokio_experiments::poll::{Async, PollMeNTimes, Poller};

struct PollerFuture(Poller);

impl Future for PollerFuture {
    type Item = ();
    type Error = ();

    fn poll(&mut self) -> Poll<(), ()> {
        match self.0.poll() {
            Async::Ready(v) => Ok(futures::Async::Ready(v)),
            Async::NotReady => Ok(futures::Async::NotReady),
        }
    }
}

struct PollMeNTimesFuture<T>(PollMeNTimes<T>);

impl<T: Copy> Future for PollMeNTimesFuture<T> {
    type Item = T;
    type Error = ();

    fn poll(&mut self) -> Poll<T, ()> {
        println!("poll: {}", self.0.n);
        match self.0.poll() {
            Async::Ready(v) => Ok(futures::Async::Ready(v)),
            Async::NotReady => {
                futures::task::current().notify();
                Ok(futures::Async::NotReady)
            }
        }
    }
}

#[test]
pub fn poller() {
    let mut core = Core::new().unwrap();
    let poller = PollerFuture(Poller {});
    assert_eq!(Ok(()), core.run(poller));
}

#[test]
pub fn poll_me_0_times() {
    let mut core = Core::new().unwrap();

    let pm0t = PollMeNTimesFuture(PollMeNTimes { n: 0, answer: 50 });
    assert_eq!(Ok(50), core.run(pm0t));
}

#[test]
pub fn poll_me_3_times() {
    let mut core = Core::new().unwrap();
    let handle = core.handle();

    let pm3t = PollMeNTimesFuture(PollMeNTimes { n: 3, answer: 42 });

    handle.spawn(PollerFuture(Poller));
    handle.spawn(PollerFuture(Poller));
    handle.spawn(PollerFuture(Poller));

    assert_eq!(Ok(42), core.run(pm3t));
}

use latency_probe::dispatch::{flat_wait_warning, Action, Dispatcher};
use latency_probe::duration::DurationRange;
use latency_probe::request::{Response, TransportError};

fn reply(n: u64) -> Response {
    Response { status: 200, took: n, timestamp: n as i64 }
}

#[test]
fn one_worker_sends_one_after_another() {
    let count = 7;
    let mut d = Dispatcher::new(count, 1).unwrap();
    let mut sent = 0;
    loop {
        match d.next_action() {
            Action::Start => {
                assert_eq!(0, d.running());
                assert_eq!(None, d.launch(None));
                sent += 1;
                assert_eq!(1, d.running());
                assert_eq!(Action::Wait, d.next_action());
                d.complete(Ok(reply(sent)));
            }
            Action::Wait => panic!("nothing is in flight"),
            Action::Finish => break,
        }
    }
    assert_eq!(count as u64, sent);
    let samples = d.finish().unwrap();
    assert_eq!(count, samples.len());
    assert_eq!((1..=7).map(reply).collect::<Vec<_>>(), samples);
}

#[test]
fn third_of_ten_fails_the_batch() {
    let mut d = Dispatcher::new(10, 10).unwrap();
    for _ in 0..10 {
        assert_eq!(Action::Start, d.next_action());
        d.launch(None);
    }
    assert_eq!(10, d.running());
    assert_eq!(Action::Wait, d.next_action());
    d.complete(Ok(reply(1)));
    d.complete(Ok(reply(2)));
    assert_eq!(Action::Wait, d.next_action());
    d.complete(Err(TransportError { message: "connection refused".to_string() }));
    assert_eq!(Action::Finish, d.next_action());
    d.complete(Ok(reply(4)));
    d.complete(Err(TransportError { message: "timed out".to_string() }));
    assert_eq!(Action::Finish, d.next_action());
    let e = d.finish().unwrap_err();
    assert_eq!("connection refused", e.message);
}

#[test]
fn failure_stops_further_starts() {
    let mut d = Dispatcher::new(10, 2).unwrap();
    d.launch(None);
    d.launch(None);
    assert_eq!(Action::Wait, d.next_action());
    d.complete(Err(TransportError { message: "dns".to_string() }));
    assert_eq!(1, d.running());
    assert_eq!(Action::Finish, d.next_action());
    assert_eq!("dns", d.finish().unwrap_err().message);
}

#[test]
fn no_more_in_flight_than_workers() {
    let mut d = Dispatcher::new(5, 2).unwrap();
    assert_eq!(Action::Start, d.next_action());
    d.launch(None);
    assert_eq!(Action::Start, d.next_action());
    d.launch(None);
    assert_eq!(Action::Wait, d.next_action());
    d.complete(Ok(reply(2)));
    assert_eq!(Action::Start, d.next_action());
    d.launch(None);
    d.complete(Ok(reply(1)));
    d.launch(None);
    d.complete(Ok(reply(3)));
    d.launch(None);
    assert_eq!(Action::Wait, d.next_action());
    d.complete(Ok(reply(5)));
    assert_eq!(Action::Wait, d.next_action());
    d.complete(Ok(reply(4)));
    assert_eq!(Action::Finish, d.next_action());
    let order: Vec<u64> = d.finish().unwrap().iter().map(|r| r.took).collect();
    assert_eq!(vec![2, 1, 3, 5, 4], order);
}

#[test]
fn dispatcher_needs_positive_numbers() {
    assert!(Dispatcher::new(0, 1).is_none());
    assert!(Dispatcher::new(1, 0).is_none());
    assert!(Dispatcher::new(1, 1).is_some());
}

#[test]
fn launch_draws_the_pause_from_the_range() {
    let range = DurationRange::parse("10ms..20ms").unwrap();
    let flat = DurationRange::parse("15ms").unwrap();
    let mut d = Dispatcher::new(300, 300).unwrap();
    let mut seen = Vec::new();
    for _ in 0..200 {
        let pause = d.launch(Some(&range)).unwrap();
        assert!(10_000_000 <= pause && pause < 20_000_000);
        seen.push(pause);
    }
    assert!(seen.iter().any(|p| *p != seen[0]));
    for _ in 0..100 {
        assert_eq!(Some(15_000_000), d.launch(Some(&flat)));
    }
    assert_eq!(Action::Wait, d.next_action());
}

#[test]
fn fixed_wait_with_many_workers_warns() {
    let flat = DurationRange::parse("1s").unwrap();
    let range = DurationRange::parse("900ms..1100ms").unwrap();
    assert!(flat_wait_warning(2, Some(&flat)));
    assert!(!flat_wait_warning(1, Some(&flat)));
    assert!(!flat_wait_warning(8, Some(&range)));
    assert!(!flat_wait_warning(8, None));
}

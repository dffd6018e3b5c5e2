use pingpong_bot::sim::bang_bang_worker::BangBangRequests;

#[test]
fn a_request_makes_the_worker_busy_until_its_answer_is_taken() {
    let mut requests = BangBangRequests::<f64>::new();
    assert!(!requests.is_busy());
    let id = requests.next_request().expect("the first request is sent");
    requests.sent(id, 0.25);
    assert!(requests.is_busy());
    assert_eq!(requests.next_request(), None, "no second request while one is computing");
    assert_eq!(requests.accept(vec![(id, "plan")]), Some((0.25, "plan")));
    assert!(!requests.is_busy());
    assert_eq!(requests.accept(vec![(id, "plan")]), None, "an answer is taken once");
}

#[test]
fn a_cancelled_request_drops_its_answer() {
    let mut requests = BangBangRequests::<f64>::new();
    let first = requests.next_request().unwrap();
    requests.sent(first, 1.0);
    requests.cancel();
    assert!(!requests.is_busy());
    assert_eq!(requests.accept(vec![(first, 7)]), None);
    let second = requests.next_request().unwrap();
    assert!(second > first);
    requests.sent(second, 2.0);
    assert_eq!(requests.accept(vec![(first, 7)]), None, "the stale answer is not the new one's");
    assert!(requests.is_busy());
    assert_eq!(requests.accept(vec![(first, 7), (second, 8)]), Some((2.0, 8)));
}

#[test]
fn the_last_matching_answer_wins() {
    let mut requests = BangBangRequests::<u32>::new();
    let id = requests.next_request().unwrap();
    requests.sent(id, 5);
    let answers = vec![(id, 'a'), (id + 7, 'x'), (id, 'b'), (0, 'z')];
    assert_eq!(requests.accept(answers), Some((5, 'b')));
}

#[test]
fn ids_are_fresh_even_when_a_send_fails() {
    let mut requests = BangBangRequests::<u32>::new();
    let lost = requests.next_request().unwrap();
    // The send failed: nothing is waited for, and the id is not reused.
    assert!(!requests.is_busy());
    let next = requests.next_request().unwrap();
    assert_eq!(next, lost + 1);
}

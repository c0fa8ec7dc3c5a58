use common_lib::queue::Queue;
use std::collections::VecDeque;

#[test]
fn new_queue_is_empty() {
    let q: Queue<u32> = Queue::new();
    assert!(q.is_empty());
}

#[test]
fn dequeue_on_empty_gives_nothing() {
    let mut q: Queue<u32> = Queue::new();
    assert!(q.dequeue().is_none());
    assert!(q.is_empty());
}

#[test]
fn enqueue_then_dequeue_gives_value_back() {
    let mut q = Queue::new();
    q.enqueue(7u32);
    assert!(!q.is_empty());
    match q.dequeue() {
        Some((v, lead)) => {
            assert_eq!(v, 7);
            assert!(lead.is_none());
        }
        None => panic!("the queue held an element"),
    }
    assert!(q.is_empty());
}

#[test]
fn elements_leave_in_arrival_order() {
    let mut q = Queue::new();
    for i in 0..10u32 {
        q.enqueue(i);
    }
    let mut out = Vec::new();
    while let Some((v, _)) = q.dequeue() {
        out.push(v);
    }
    assert_eq!(out, (0..10u32).collect::<Vec<_>>());
}

#[test]
fn reported_lead_is_next_to_leave() {
    let mut q = Queue::new();
    q.enqueue("a".to_string());
    q.enqueue("b".to_string());
    q.enqueue("c".to_string());
    let lead = match q.dequeue() {
        Some((v, lead)) => {
            assert_eq!(v, "a");
            lead.cloned()
        }
        None => panic!("the queue held elements"),
    };
    assert_eq!(lead.as_deref(), Some("b"));
    match q.dequeue() {
        Some((v, lead)) => {
            assert_eq!(v, "b");
            assert_eq!(lead.map(|s| s.as_str()), Some("c"));
        }
        None => panic!("the queue held elements"),
    }
}

#[test]
fn interleaved_enqueue_and_dequeue_keep_order() {
    let mut q = Queue::new();
    q.enqueue(1);
    q.enqueue(2);
    assert_eq!(q.dequeue().map(|(v, _)| v), Some(1));
    q.enqueue(3);
    q.enqueue(4);
    match q.dequeue() {
        Some((v, lead)) => {
            assert_eq!(v, 2);
            assert_eq!(lead.copied(), Some(3));
        }
        None => panic!("the queue held elements"),
    }
    q.enqueue(5);
    assert_eq!(q.dequeue().map(|(v, l)| (v, l.copied())), Some((3, Some(4))));
    assert_eq!(q.dequeue().map(|(v, l)| (v, l.copied())), Some((4, Some(5))));
    assert_eq!(q.dequeue().map(|(v, l)| (v, l.copied())), Some((5, None)));
    assert!(q.dequeue().is_none());
    assert!(q.is_empty());
}

#[test]
fn enqueue_does_not_disturb_front() {
    let mut q = Queue::new();
    q.enqueue(10);
    q.enqueue(20);
    q.enqueue(30);
    assert_eq!(q.dequeue().map(|(v, l)| (v, l.copied())), Some((10, Some(20))));
}

#[test]
fn queue_matches_a_deque_over_mixed_calls() {
    let mut q = Queue::new();
    let mut d = VecDeque::new();
    let ops = [1, 0, 2, 3, 0, 0, 0, 4, 5, 6, 0, 7, 0, 0, 0, 0];
    for &op in &ops {
        if op == 0 {
            let got = q.dequeue().map(|(v, h)| (v, h.copied()));
            let want = d.pop_front().map(|v| (v, d.front().copied()));
            assert_eq!(got, want);
        } else {
            q.enqueue(op);
            d.push_back(op);
        }
        assert_eq!(q.is_empty(), d.is_empty());
    }
}

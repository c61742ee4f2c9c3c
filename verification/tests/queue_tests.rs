use fairqueue::FairGroup;
use fairqueue::FairQueue;

#[derive(Debug, PartialEq)]
struct Event {
    timestamp: u32,
    user_id: &'static str,
    group: usize,
}

impl FairGroup for Event {
    fn same_group(self, other: Self) -> bool {
        self.group == other.group
    }

    fn is_same_group(&self, other: &Self) -> bool {
        self.group == other.group
    }
}

#[test]
fn test_spaced_fairness() {
    let event1 = Event {
        timestamp: 1,
        user_id: "user1",
        group: 0,
    };
    let event2 = Event {
        timestamp: 2,
        user_id: "user2",
        group: 1,
    };
    let event3 = Event {
        timestamp: 3,
        user_id: "user1",
        group: 0,
    };
    let event4 = Event {
        timestamp: 4,
        user_id: "user3",
        group: 2,
    };
    let event5 = Event {
        timestamp: 5,
        user_id: "user2",
        group: 1,
    };
    let event6 = Event {
        timestamp: 6,
        user_id: "user1",
        group: 0,
    };
    let event7 = Event {
        timestamp: 7,
        user_id: "user1",
        group: 0,
    };
    let event8 = Event {
        timestamp: 8,
        user_id: "user3",
        group: 2,
    };

    let mut queue = FairQueue::new();

    queue.insert(&event1);
    queue.insert(&event2);
    queue.insert(&event3);
    queue.insert(&event4);
    queue.insert(&event5);
    queue.insert(&event6);
    queue.insert(&event7);
    queue.insert(&event8);

    assert_eq!(queue.pop(), Some(&event1));
    assert_eq!(queue.pop(), Some(&event2));
    assert_eq!(queue.pop(), Some(&event4));
    assert_eq!(queue.pop(), Some(&event3));
    assert_eq!(queue.pop(), Some(&event5));
    assert_eq!(queue.pop(), Some(&event8));
    assert_eq!(queue.pop(), Some(&event6));
    assert_eq!(queue.pop(), Some(&event7));
    assert_eq!(queue.pop(), None);
}

#[test]
fn test_len_and_group_count() {
    let event = Event {
        timestamp: 0,
        user_id: "user1",
        group: 0,
    };
    let other = Event {
        timestamp: 1,
        user_id: "user2",
        group: 1,
    };

    let mut queue = FairQueue::new();
    assert!(queue.is_empty());
    assert_eq!(queue.len(), 0);
    assert_eq!(queue.group_count(), 0);

    queue.insert(&event);
    assert!(!queue.is_empty());
    assert_eq!(queue.len(), 1);
    assert_eq!(queue.group_count(), 1);

    queue.insert(&other);
    assert_eq!(queue.len(), 2);
    assert_eq!(queue.group_count(), 2);

    assert_eq!(queue.pop(), Some(&event));
    assert_eq!(queue.len(), 1);
    assert_eq!(queue.group_count(), 1);

    queue.clear();
    assert!(queue.is_empty());
    assert_eq!(queue.group_count(), 0);
}

#[test]
fn test_peek_matches_pop() {
    let event = Event {
        timestamp: 1,
        user_id: "user1",
        group: 0,
    };
    let other = Event {
        timestamp: 2,
        user_id: "user2",
        group: 1,
    };

    let mut queue = FairQueue::new();
    queue.insert(&event);
    queue.insert(&other);

    assert_eq!(queue.peek(), Some(&event));
    assert_eq!(queue.peek(), Some(&event));
    assert_eq!(queue.pop(), Some(&event));
    assert_eq!(queue.peek(), Some(&other));
}

#[test]
fn queue_test_group_heads_snapshot() {
    let a1 = Event {
        timestamp: 1,
        user_id: "user1",
        group: 0,
    };
    let b1 = Event {
        timestamp: 2,
        user_id: "user2",
        group: 1,
    };
    let b2 = Event {
        timestamp: 3,
        user_id: "user2",
        group: 1,
    };
    let c1 = Event {
        timestamp: 4,
        user_id: "user3",
        group: 2,
    };

    let mut queue = FairQueue::new();
    queue.insert(&a1);
    queue.insert(&b1);
    queue.insert(&b2);
    queue.insert(&c1);

    let mut heads = queue.group_heads();
    assert_eq!(heads.next(), Some(&a1));
    assert_eq!(heads.next(), Some(&b1));
    assert_eq!(heads.next(), Some(&c1));
    assert_eq!(heads.next(), None);

    let collected = queue.group_heads_vec();
    assert_eq!(collected, vec![&a1, &b1, &c1]);

    // Ensure borrowing state not consumed.
    assert_eq!(queue.peek(), Some(&a1));
}

#[test]
fn queue_test_pointer_wraps_after_group_removal() {
    let a1 = Event {
        timestamp: 1,
        user_id: "user1",
        group: 0,
    };
    let b1 = Event {
        timestamp: 2,
        user_id: "user2",
        group: 1,
    };
    let c1 = Event {
        timestamp: 3,
        user_id: "user3",
        group: 2,
    };
    let d1 = Event {
        timestamp: 4,
        user_id: "user4",
        group: 3,
    };

    let mut queue = FairQueue::new();
    queue.insert(&a1);
    queue.insert(&b1);
    queue.insert(&c1);

    assert_eq!(queue.pop(), Some(&a1));
    queue.insert(&d1);

    let mut groups = Vec::new();
    while let Some(item) = queue.pop() {
        groups.push(item.group);
    }

    groups.sort_unstable();
    assert_eq!(groups, vec![1, 2, 3]);
    assert!(queue.is_empty());
}

#[test]
fn queue_conservation_drains_every_item_once() {
    let groups: [usize; 8] = [0, 1, 0, 2, 1, 0, 0, 2];
    let ids: [&'static str; 3] = ["g0", "g1", "g2"];
    let mut events = Vec::new();
    for (idx, group) in groups.iter().enumerate() {
        events.push(Event {
            timestamp: idx as u32,
            user_id: ids[*group],
            group: *group,
        });
    }

    let mut queue = FairQueue::new();
    for event in &events {
        queue.insert(event);
    }
    assert_eq!(queue.len(), events.len());

    let mut seen = Vec::new();
    while let Some(item) = queue.pop() {
        seen.push(item.timestamp);
    }
    assert!(queue.is_empty());
    assert_eq!(seen.len(), events.len());
    seen.sort_unstable();
    assert_eq!(seen, vec![0, 1, 2, 3, 4, 5, 6, 7]);
}

#[test]
fn queue_intra_group_order_is_fifo() {
    let groups: [usize; 8] = [0, 1, 0, 2, 1, 0, 0, 2];
    let ids: [&'static str; 3] = ["g0", "g1", "g2"];
    let mut events = Vec::new();
    for (idx, group) in groups.iter().enumerate() {
        events.push(Event {
            timestamp: idx as u32,
            user_id: ids[*group],
            group: *group,
        });
    }

    let mut queue = FairQueue::new();
    for event in &events {
        queue.insert(event);
    }

    let mut last_per_group: [Option<u32>; 3] = [None, None, None];
    while let Some(item) = queue.pop() {
        if let Some(prev) = last_per_group[item.group] {
            assert!(prev < item.timestamp);
        }
        last_per_group[item.group] = Some(item.timestamp);
    }
}

#[test]
fn queue_no_consecutive_same_group_while_others_pend() {
    let groups: [usize; 12] = [0, 0, 1, 2, 1, 0, 3, 3, 2, 1, 0, 2];
    let ids: [&'static str; 4] = ["g0", "g1", "g2", "g3"];
    let mut events = Vec::new();
    for (idx, group) in groups.iter().enumerate() {
        events.push(Event {
            timestamp: idx as u32,
            user_id: ids[*group],
            group: *group,
        });
    }

    let mut queue = FairQueue::new();
    for event in &events {
        queue.insert(event);
    }

    let mut remaining: [usize; 4] = [0, 0, 0, 0];
    for event in &events {
        remaining[event.group] += 1;
    }

    let mut last_group: Option<usize> = None;
    while let Some(event) = queue.pop() {
        let gid = event.group;
        let other_pending = remaining
            .iter()
            .enumerate()
            .any(|(idx, &count)| idx != gid && count > 0);
        if other_pending {
            if let Some(prev) = last_group {
                assert_ne!(prev, gid);
            }
        }
        remaining[gid] -= 1;
        last_group = Some(gid);
    }
}

#[test]
fn queue_pop_on_empty_is_repeatable() {
    let event = Event {
        timestamp: 1,
        user_id: "user1",
        group: 0,
    };

    let mut queue: FairQueue<Event> = FairQueue::new();
    assert_eq!(queue.pop(), None);
    assert_eq!(queue.pop(), None);
    assert_eq!(queue.len(), 0);
    assert_eq!(queue.group_count(), 0);

    queue.insert(&event);
    assert_eq!(queue.pop(), Some(&event));
    assert_eq!(queue.pop(), None);
    assert_eq!(queue.pop(), None);
    assert_eq!(queue.len(), 0);

    queue.insert(&event);
    queue.clear();
    assert_eq!(queue.len(), 0);
    assert_eq!(queue.group_count(), 0);
    assert_eq!(queue.pop(), None);
}

struct Loner(u32);

impl FairGroup for Loner {
    fn same_group(self, _other: Self) -> bool {
        false
    }

    fn is_same_group(&self, _other: &Self) -> bool {
        false
    }
}

struct Chummy(u32);

impl FairGroup for Chummy {
    fn same_group(self, _other: Self) -> bool {
        true
    }

    fn is_same_group(&self, _other: &Self) -> bool {
        true
    }
}

#[test]
fn queue_constant_false_predicate_gives_singleton_groups() {
    let a = Loner(1);
    let b = Loner(2);
    let c = Loner(3);

    let mut queue = FairQueue::new();
    queue.insert(&a);
    queue.insert(&b);
    queue.insert(&c);
    assert_eq!(queue.group_count(), 3);
    // Draining a singleton group swap-removes it: the last group moves into
    // the vacated slot and is served next.
    assert_eq!(queue.pop().map(|v| v.0), Some(1));
    assert_eq!(queue.pop().map(|v| v.0), Some(3));
    assert_eq!(queue.pop().map(|v| v.0), Some(2));
    assert_eq!(queue.pop().map(|v| v.0), None);
}

#[test]
fn queue_constant_true_predicate_degenerates_to_fifo() {
    let a = Chummy(1);
    let b = Chummy(2);
    let c = Chummy(3);

    let mut queue = FairQueue::new();
    queue.insert(&a);
    queue.insert(&b);
    queue.insert(&c);
    assert_eq!(queue.group_count(), 1);
    assert_eq!(queue.pop().map(|v| v.0), Some(1));
    assert_eq!(queue.pop().map(|v| v.0), Some(2));
    assert_eq!(queue.pop().map(|v| v.0), Some(3));
    assert_eq!(queue.pop().map(|v| v.0), None);
}

#[test]
fn queue_default_is_empty() {
    let queue: FairQueue<Event> = FairQueue::default();
    assert!(queue.is_empty());
    assert_eq!(queue.group_count(), 0);
    assert!(queue.group_heads_vec().is_empty());
}

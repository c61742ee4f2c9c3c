use fairqueue::FairGroup;
use fairqueue::FairStack;

#[derive(Debug, PartialEq)]
struct Event {
    timestamp: u32,
    user_id: &'static str,
    group: usize,
}

impl FairGroup for Event {
    fn same_group(self, other: Self) -> bool {
        self.group == other.group
    }

    fn is_same_group(&self, other: &Self) -> bool {
        self.group == other.group
    }
}

#[test]
fn alternates_groups() {
    let a1 = Event {
        timestamp: 1,
        user_id: "user1",
        group: 0,
    };
    let a2 = Event {
        timestamp: 2,
        user_id: "user1",
        group: 0,
    };
    let b1 = Event {
        timestamp: 3,
        user_id: "user2",
        group: 1,
    };
    let b2 = Event {
        timestamp: 4,
        user_id: "user2",
        group: 1,
    };

    let mut stack = FairStack::new();
    stack.push(&a1);
    stack.push(&a2);
    stack.push(&b1);
    stack.push(&b2);

    assert_eq!(stack.pop(), Some(&a2));
    assert_eq!(stack.pop(), Some(&b2));
    assert_eq!(stack.pop(), Some(&a1));
    assert_eq!(stack.pop(), Some(&b1));
    assert_eq!(stack.pop(), None);
}

#[test]
fn len_group_count_and_peek() {
    let a1 = Event {
        timestamp: 1,
        user_id: "user1",
        group: 0,
    };
    let a2 = Event {
        timestamp: 2,
        user_id: "user1",
        group: 0,
    };
    let b1 = Event {
        timestamp: 3,
        user_id: "user2",
        group: 1,
    };

    let mut stack = FairStack::new();
    assert!(stack.is_empty());
    assert_eq!(stack.group_count(), 0);

    stack.push(&a1);
    assert_eq!(stack.len(), 1);
    assert_eq!(stack.group_count(), 1);
    assert_eq!(stack.peek(), Some(&a1));

    stack.push(&a2);
    stack.push(&b1);
    assert_eq!(stack.len(), 3);
    assert_eq!(stack.group_count(), 2);
    assert_eq!(stack.peek(), Some(&a2));
    assert_eq!(stack.peek_group(&a2), Some(&a2));
    assert_eq!(stack.peek_group(&b1), Some(&b1));

    stack.clear();
    assert!(stack.is_empty());
    assert_eq!(stack.group_count(), 0);
}

#[test]
fn stack_test_group_heads_snapshot() {
    let a1 = Event {
        timestamp: 1,
        user_id: "user1",
        group: 0,
    };
    let a2 = Event {
        timestamp: 2,
        user_id: "user1",
        group: 0,
    };
    let b1 = Event {
        timestamp: 3,
        user_id: "user2",
        group: 1,
    };
    let c1 = Event {
        timestamp: 4,
        user_id: "user3",
        group: 2,
    };

    let mut stack = FairStack::new();
    stack.push(&a1);
    stack.push(&a2);
    stack.push(&b1);
    stack.push(&c1);

    let mut heads = stack.group_heads();
    assert_eq!(heads.next(), Some(&a2));
    assert_eq!(heads.next(), Some(&b1));
    assert_eq!(heads.next(), Some(&c1));
    assert_eq!(heads.next(), None);

    assert_eq!(stack.peek(), Some(&a2));

    let collected = stack.group_heads_vec();
    assert_eq!(collected, vec![&a2, &b1, &c1]);
}

#[test]
fn stack_test_pointer_wraps_after_group_removal() {
    let a1 = Event {
        timestamp: 1,
        user_id: "user1",
        group: 0,
    };
    let b1 = Event {
        timestamp: 2,
        user_id: "user2",
        group: 1,
    };
    let c1 = Event {
        timestamp: 3,
        user_id: "user3",
        group: 2,
    };
    let d1 = Event {
        timestamp: 4,
        user_id: "user4",
        group: 3,
    };

    let mut stack = FairStack::new();
    stack.push(&a1);
    stack.push(&b1);
    stack.push(&c1);

    assert_eq!(stack.pop(), Some(&a1));

    stack.push(&d1);
    let mut groups = Vec::new();
    while let Some(item) = stack.pop() {
        groups.push(item.group);
    }

    groups.sort_unstable();
    assert_eq!(groups, vec![1, 2, 3]);
    assert!(stack.is_empty());
}

#[test]
fn stack_conservation_drains_every_item_once() {
    let groups: [usize; 8] = [0, 1, 0, 2, 1, 0, 0, 2];
    let ids: [&'static str; 3] = ["g0", "g1", "g2"];
    let mut events = Vec::new();
    for (idx, group) in groups.iter().enumerate() {
        events.push(Event {
            timestamp: idx as u32,
            user_id: ids[*group],
            group: *group,
        });
    }

    let mut stack = FairStack::new();
    for event in &events {
        stack.push(event);
    }
    assert_eq!(stack.len(), events.len());

    let mut seen = Vec::new();
    while let Some(item) = stack.pop() {
        seen.push(item.timestamp);
    }
    assert!(stack.is_empty());
    assert_eq!(seen.len(), events.len());
    seen.sort_unstable();
    assert_eq!(seen, vec![0, 1, 2, 3, 4, 5, 6, 7]);
}

#[test]
fn stack_intra_group_order_is_lifo() {
    let groups: [usize; 8] = [0, 1, 0, 2, 1, 0, 0, 2];
    let ids: [&'static str; 3] = ["g0", "g1", "g2"];
    let mut events = Vec::new();
    for (idx, group) in groups.iter().enumerate() {
        events.push(Event {
            timestamp: idx as u32,
            user_id: ids[*group],
            group: *group,
        });
    }

    let mut stack = FairStack::new();
    for event in &events {
        stack.push(event);
    }

    let mut last_per_group: [Option<u32>; 3] = [None, None, None];
    while let Some(item) = stack.pop() {
        if let Some(prev) = last_per_group[item.group] {
            assert!(prev > item.timestamp);
        }
        last_per_group[item.group] = Some(item.timestamp);
    }
}

#[test]
fn stack_no_consecutive_same_group_while_others_pend() {
    let groups: [usize; 12] = [0, 0, 1, 2, 1, 0, 3, 3, 2, 1, 0, 2];
    let ids: [&'static str; 4] = ["g0", "g1", "g2", "g3"];
    let mut events = Vec::new();
    for (idx, group) in groups.iter().enumerate() {
        events.push(Event {
            timestamp: idx as u32,
            user_id: ids[*group],
            group: *group,
        });
    }

    let mut stack = FairStack::new();
    for event in &events {
        stack.push(event);
    }

    let mut remaining: [usize; 4] = [0, 0, 0, 0];
    for event in &events {
        remaining[event.group] += 1;
    }

    let mut last_group: Option<usize> = None;
    while let Some(event) = stack.pop() {
        let gid = event.group;
        let other_pending = remaining
            .iter()
            .enumerate()
            .any(|(idx, &count)| idx != gid && count > 0);
        if other_pending {
            if let Some(prev) = last_group {
                assert_ne!(prev, gid);
            }
        }
        remaining[gid] -= 1;
        last_group = Some(gid);
    }
}

#[test]
fn stack_peek_matches_pop() {
    let a1 = Event {
        timestamp: 1,
        user_id: "user1",
        group: 0,
    };
    let b1 = Event {
        timestamp: 2,
        user_id: "user2",
        group: 1,
    };

    let mut stack = FairStack::new();
    stack.push(&a1);
    stack.push(&b1);

    assert_eq!(stack.peek(), Some(&a1));
    assert_eq!(stack.peek(), Some(&a1));
    assert_eq!(stack.pop(), Some(&a1));
    assert_eq!(stack.peek(), Some(&b1));
}

#[test]
fn stack_pop_on_empty_is_repeatable() {
    let event = Event {
        timestamp: 1,
        user_id: "user1",
        group: 0,
    };

    let mut stack: FairStack<Event> = FairStack::new();
    assert_eq!(stack.pop(), None);
    assert_eq!(stack.pop(), None);
    assert_eq!(stack.len(), 0);
    assert_eq!(stack.group_count(), 0);

    stack.push(&event);
    assert_eq!(stack.pop(), Some(&event));
    assert_eq!(stack.pop(), None);
    assert_eq!(stack.pop(), None);

    stack.push(&event);
    stack.clear();
    assert_eq!(stack.len(), 0);
    assert_eq!(stack.group_count(), 0);
    assert_eq!(stack.pop(), None);
}

#[test]
fn stack_peek_group_without_match_is_none() {
    let a1 = Event {
        timestamp: 1,
        user_id: "user1",
        group: 0,
    };
    let stranger = Event {
        timestamp: 2,
        user_id: "user9",
        group: 9,
    };

    let mut stack = FairStack::new();
    assert_eq!(stack.peek_group(&a1), None);
    stack.push(&a1);
    assert_eq!(stack.peek_group(&stranger), None);
    assert_eq!(stack.peek_group(&a1), Some(&a1));
}

#[test]
fn stack_default_is_empty() {
    let stack: FairStack<Event> = FairStack::default();
    assert!(stack.is_empty());
    assert_eq!(stack.group_count(), 0);
    assert!(stack.group_heads_vec().is_empty());
}

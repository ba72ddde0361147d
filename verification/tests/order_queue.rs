use order_book::order_queue::{LevelQueue, OrderArena};
use order_book::test_helpers::order;
use order_book::types::{Order, Side};

fn queued(id: &str) -> Order {
    order(Side::Bid, 100, 1, None, id)
}
fn ids(queue: &LevelQueue, nodes: &OrderArena) -> Vec<String> {
    queue
        .iter(nodes)
        .into_iter()
        .map(|order| order.exchange_id.0.clone())
        .collect()
}

#[test]
fn queues_share_storage_without_sharing_links() {
    let mut nodes = OrderArena::with_key();
    let mut left = LevelQueue::default();
    let mut right = LevelQueue::default();
    let a = left.push_back(&mut nodes, queued("a"));
    let other = right.push_back(&mut nodes, queued("other"));
    let b = left.push_back(&mut nodes, queued("b"));
    let c = left.push_back(&mut nodes, queued("c"));
    let d = left.push_back(&mut nodes, queued("d"));
    assert!(left.links_are_consistent(&nodes));
    assert!(right.links_are_consistent(&nodes));
    assert_eq!(left.len(), 4);
    assert_eq!(right.len(), 1);
    for (key, expected) in [
        (b, vec!["a", "c", "d"]),
        (a, vec!["c", "d"]),
        (d, vec!["c"]),
        (c, vec![]),
    ] {
        assert!(left.remove_key(&mut nodes, key).is_some());
        assert_eq!(ids(&left, &nodes), expected);
        assert!(left.links_are_consistent(&nodes));
        assert!(right.links_are_consistent(&nodes));
        assert_eq!(ids(&right, &nodes), ["other"]);
    }
    assert_eq!(nodes.len(), 1);
    assert!(right.remove_key(&mut nodes, other).is_some());
    assert!(nodes.is_empty());
    assert!(right.links_are_consistent(&nodes));
}

#[test]
fn reuse_in_another_queue_does_not_revive_stale_key() {
    let mut nodes = OrderArena::with_key();
    let mut left = LevelQueue::default();
    let mut right = LevelQueue::default();
    let stale = left.push_back(&mut nodes, queued("a"));
    left.remove_key(&mut nodes, stale).unwrap();
    let current = right.push_back(&mut nodes, queued("b"));
    assert_ne!(stale, current);
    assert!(left.remove_key(&mut nodes, stale).is_none());
    assert!(nodes.get(stale).is_none());
    assert_eq!(ids(&right, &nodes), ["b"]);
    assert!(left.links_are_consistent(&nodes));
    assert!(right.links_are_consistent(&nodes));
}

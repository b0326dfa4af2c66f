use meshbus::control::ControlTimer;
use meshbus::lab::numbers::Number;
use meshbus::ordered_map::OrderedMap;
use meshbus::runtime::timers::TimerQueue;
use meshbus::types::{LinkId, MonoTime};

#[test]
fn maps_keep_their_keys_in_order() {
    let mut map = OrderedMap::new();
    assert!(map.is_empty());
    for (key, value) in [(5, 'a'), (1, 'b'), (9, 'c'), (5, 'd')] {
        map.insert(Number(key), value);
    }
    assert_eq!(map.len(), 3);
    let entries: Vec<(u64, char)> = (0..map.len())
        .map(|i| (map.key_at(i).0, *map.value_at(i)))
        .collect();
    assert_eq!(entries, vec![(1, 'b'), (5, 'd'), (9, 'c')]);
    assert_eq!(map.get(&Number(5)), Some(&'d'));
    assert_eq!(map.get(&Number(6)), None);
    assert!(map.contains_key(&Number(9)));
    assert_eq!(map.remove(&Number(1)), Some('b'));
    assert_eq!(map.remove(&Number(1)), None);
    assert_eq!(map.copy(), map);
    assert_eq!(map.len(), 2);
}

#[test]
fn deadlines_come_by_time_and_then_in_the_order_they_were_set() {
    let mut queue = TimerQueue::new();
    assert_eq!(queue.next_at(), None);
    let digest = |link: u64| ControlTimer::Digest(LinkId::new(link));
    queue.schedule(MonoTime::from_millis(20), digest(1));
    queue.schedule(MonoTime::from_millis(10), digest(9));
    queue.schedule(MonoTime::from_millis(10), ControlTimer::SpfHold { generation: 1 });
    queue.schedule(MonoTime::from_millis(10), digest(2));
    assert_eq!(queue.next_at(), Some(10));
    assert_eq!(queue.take_due(MonoTime::from_millis(9)), None);
    assert_eq!(queue.take_due(MonoTime::from_millis(10)), Some(digest(9)));
    assert_eq!(
        queue.take_due(MonoTime::from_millis(15)),
        Some(ControlTimer::SpfHold { generation: 1 })
    );
    assert_eq!(queue.take_next(), Some(digest(2)));
    assert_eq!(queue.take_due(MonoTime::from_millis(19)), None);
    assert_eq!(queue.take_next(), Some(digest(1)));
    assert_eq!(queue.take_next(), None);
}

use recency_cache::recency::RecencyList;

fn filled() -> RecencyList<u8, &'static str> {
    let mut list = RecencyList::new();
    list.push_back(2, "two");
    list.push_back(3, "three");
    list.push_back(5, "five");
    list.push_back(8, "eight");
    list
}

#[test]
fn a_new_list_is_empty() {
    let mut list = RecencyList::<u8, u64>::new();
    assert_eq!(list.len(), 0);
    assert!(list.remove_front().is_none());
    assert!(list.remove_at(&0).is_none());
    assert_eq!(list.position(&0), None);
}

#[test]
fn push_back_appends() {
    let list = filled();
    assert_eq!(list.len(), 4);
    assert_eq!(list.record(0).idx, 2);
    assert_eq!(list.record(0).tag, "two");
    assert_eq!(list.record(3).idx, 8);
    assert_eq!(list.record(3).tag, "eight");
}

#[test]
fn remove_front_gives_the_oldest() {
    let mut list = filled();
    let front = list.remove_front().unwrap();
    assert_eq!(front.idx, 2);
    assert_eq!(front.tag, "two");
    assert_eq!(list.len(), 3);
    assert_eq!(list.record(0).idx, 3);
    let next = list.remove_front().unwrap();
    assert_eq!(next.idx, 3);
    assert_eq!(next.tag, "three");
}

#[test]
fn remove_front_empties_the_list_in_order() {
    let mut list = filled();
    let mut stamps = Vec::new();
    while let Some(record) = list.remove_front() {
        stamps.push(record.idx);
    }
    assert_eq!(stamps, vec![2, 3, 5, 8]);
    assert_eq!(list.len(), 0);
}

#[test]
fn position_finds_every_stamp() {
    let list = filled();
    assert_eq!(list.position(&2), Some(0));
    assert_eq!(list.position(&3), Some(1));
    assert_eq!(list.position(&5), Some(2));
    assert_eq!(list.position(&8), Some(3));
}

#[test]
fn position_misses_what_is_not_there() {
    let list = filled();
    assert_eq!(list.position(&0), None);
    assert_eq!(list.position(&4), None);
    assert_eq!(list.position(&7), None);
    assert_eq!(list.position(&9), None);
    assert_eq!(list.position(&255), None);
}

#[test]
fn remove_at_takes_the_record_and_shifts_the_rest() {
    let mut list = filled();
    let removed = list.remove_at(&5).unwrap();
    assert_eq!(removed.idx, 5);
    assert_eq!(removed.tag, "five");
    assert_eq!(list.len(), 3);
    assert_eq!(list.record(0).idx, 2);
    assert_eq!(list.record(1).idx, 3);
    assert_eq!(list.record(2).idx, 8);
    assert_eq!(list.record(2).tag, "eight");
}

#[test]
fn remove_at_a_missing_stamp_changes_nothing() {
    let mut list = filled();
    assert!(list.remove_at(&4).is_none());
    assert_eq!(list.len(), 4);
    assert_eq!(list.record(0).idx, 2);
    assert_eq!(list.record(1).idx, 3);
    assert_eq!(list.record(2).idx, 5);
    assert_eq!(list.record(3).idx, 8);
}

#[test]
fn restamp_changes_the_stamp_and_keeps_the_tag() {
    let mut list = filled();
    list.restamp(0, 0);
    list.restamp(1, 1);
    list.restamp(2, 2);
    list.restamp(3, 3);
    assert_eq!(list.record(0).idx, 0);
    assert_eq!(list.record(0).tag, "two");
    assert_eq!(list.record(3).idx, 3);
    assert_eq!(list.record(3).tag, "eight");
    assert_eq!(list.position(&3), Some(3));
    assert_eq!(list.position(&8), None);
}

#[test]
fn a_long_list_is_searched_right() {
    let mut list = RecencyList::<u32, u32>::new();
    let mut stamp = 0u32;
    while stamp < 2000 {
        list.push_back(stamp * 3, stamp);
        stamp += 1;
    }
    let mut probe = 0u32;
    while probe < 6000 {
        let expected = if probe % 3 == 0 { Some((probe / 3) as usize) } else { None };
        assert_eq!(list.position(&probe), expected);
        probe += 1;
    }
}

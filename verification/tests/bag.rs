use netflow::bag::Bag;

#[test]
fn new_bag_is_empty() {
    let bag: Bag<u32> = Bag::get_empty_bag();
    assert!(bag.is_empty_bag());
    assert_eq!(bag.size(), 0);
    assert!(bag.get_from_bag().is_none());
    assert!(bag.iter().next().is_none());
}

#[test]
fn items_come_out_most_recent_first() {
    let mut bag = Bag::get_empty_bag();
    bag.add(10u32);
    bag.add(20);
    bag.add(30);
    assert!(!bag.is_empty_bag());
    assert_eq!(bag.size(), 3);
    assert_eq!(bag.get_from_bag(), Some(&30));
    let mut it = bag.iter();
    assert_eq!(it.next(), Some(&30));
    assert_eq!(it.next(), Some(&20));
    assert_eq!(it.next(), Some(&10));
    assert_eq!(it.next(), None);
    assert_eq!(it.next(), None);
}

#[test]
fn a_new_cursor_starts_over() {
    let mut bag = Bag::get_empty_bag();
    bag.add(1u8);
    bag.add(2);
    let mut first = bag.iter();
    assert_eq!(first.next(), Some(&2));
    let mut second = bag.iter();
    assert_eq!(second.next(), Some(&2));
    assert_eq!(first.next(), Some(&1));
    assert_eq!(second.next(), Some(&1));
}

#[test]
fn items_are_found_by_position() {
    let mut bag = Bag::get_empty_bag();
    bag.add(String::from("a"));
    bag.add(String::from("b"));
    bag.add(String::from("c"));
    assert_eq!(bag.item(0), "c");
    assert_eq!(bag.item(1), "b");
    assert_eq!(bag.item(2), "a");
}

#[test]
fn an_item_can_be_changed_in_place() {
    let mut bag = Bag::get_empty_bag();
    bag.add(1u64);
    bag.add(2);
    bag.add(3);
    *bag.item_mut(1) = 20;
    assert_eq!(bag.size(), 3);
    let mut seen = vec![];
    let mut it = bag.iter();
    while let Some(x) = it.next() {
        seen.push(*x);
    }
    assert_eq!(seen, vec![3, 20, 1]);
}

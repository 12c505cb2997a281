use order_tracker::order::IdGen;
use order_tracker::order::Order;
use order_tracker::order_list::OrderList;

fn items(names: &[&str]) -> Vec<String> {
    names.iter().map(|n| String::from(*n)).collect()
}

#[test]
fn ids_start_at_one_and_never_repeat() {
    let mut gen = IdGen::new();
    assert_eq!(gen.next_id(), 1);
    let burger = items(&["Burger", "Fries", "Cola"]);
    let a = Order::new(&burger, &mut gen);
    let b = Order::new(&burger, &mut gen);
    assert_eq!(a.get_id(), 1);
    assert_eq!(b.get_id(), 2);
    // dropping orders does not recycle their ids
    drop(a);
    drop(b);
    let c = Order::new(&burger, &mut gen);
    assert_eq!(c.get_id(), 3);
    assert_eq!(gen.next_id(), 4);
}

#[test]
fn ids_keep_increasing_after_removals_from_the_store() {
    let mut gen = IdGen::new();
    let mut store = OrderList::new();
    let names = items(&["Tea", "Pie", "Jam"]);
    for _ in 0..3 {
        store.add_order(Order::new(&names, &mut gen));
    }
    assert!(store.remove_order(2).is_some());
    let late = Order::new(&names, &mut gen);
    assert_eq!(late.get_id(), 4);
}

#[test]
fn new_orders_are_not_ready() {
    let mut gen = IdGen::new();
    let order = Order::new(&items(&["Burger"]), &mut gen);
    assert!(!order.is_ready());
}

#[test]
fn count_items_tallies_duplicates() {
    let mut gen = IdGen::new();
    let order = Order::new(&items(&["Burger", "Fries", "Burger"]), &mut gen);
    let counts = order.count_items();
    assert_eq!(counts.len(), 2);
    assert_eq!(counts[0].0, "Burger");
    assert_eq!(counts[0].1, 2);
    assert_eq!(counts[1].0, "Fries");
    assert_eq!(counts[1].1, 1);
}

#[test]
fn count_items_of_no_items_is_empty() {
    let mut gen = IdGen::new();
    let order = Order::new(&items(&[]), &mut gen);
    assert_eq!(order.count_items().len(), 0);
}

#[test]
fn rendered_order_shows_id_readiness_and_counts() {
    let mut gen = IdGen::new();
    let order = Order::new(&items(&["Burger", "Fries", "Burger"]), &mut gen);
    let text = order.to_string();
    assert_eq!(text, "Order number: 1\nNot Ready\n2 Burger\n1 Fries\n");
    assert!(text.contains("Order number: 1"));
    assert!(text.contains("Not Ready"));
    assert_eq!(text.lines().count(), 4);
}

#[test]
fn rendered_ready_order_says_ready() {
    let mut gen = IdGen::new();
    let mut order = Order::new(&items(&["Tea"]), &mut gen);
    order.set_ready();
    assert_eq!(order.to_string(), "Order number: 1\nReady\n1 Tea\n");
}

#[test]
fn order_items_are_readable() {
    let mut gen = IdGen::new();
    let order = Order::new(&items(&["Burger", "Fries"]), &mut gen);
    assert_eq!(order.items().len(), 2);
    assert_eq!(order.items().get(0).unwrap().as_str(), "Burger");
    assert_eq!(order.items().get(1).unwrap().as_str(), "Fries");
    assert_eq!(order.items().capacity(), 2);
}

#[test]
fn ready_order_flags_the_right_order() {
    let mut gen = IdGen::new();
    let mut store = OrderList::new();
    let names = items(&["Tea"]);
    store.add_order(Order::new(&names, &mut gen));
    store.add_order(Order::new(&names, &mut gen));
    assert!(store.ready_order(2));
    assert!(!store.get(0).unwrap().is_ready());
    assert!(store.get(1).unwrap().is_ready());
    // marking an already ready order again still succeeds
    assert!(store.ready_order(2));
    assert!(store.get(1).unwrap().is_ready());
}

#[test]
fn ready_order_of_an_absent_id_changes_nothing() {
    let mut gen = IdGen::new();
    let mut store = OrderList::new();
    store.add_order(Order::new(&items(&["Tea"]), &mut gen));
    assert!(!store.ready_order(7));
    assert_eq!(store.len(), 1);
    assert!(!store.get(0).unwrap().is_ready());
}

#[test]
fn remove_order_returns_the_removed_order() {
    let mut gen = IdGen::new();
    let mut store = OrderList::new();
    let names = items(&["Pie"]);
    for _ in 0..3 {
        store.add_order(Order::new(&names, &mut gen));
    }
    let removed = store.remove_order(2).unwrap();
    assert_eq!(removed.get_id(), 2);
    assert_eq!(store.len(), 2);
    assert_eq!(store.get(0).unwrap().get_id(), 1);
    assert_eq!(store.get(1).unwrap().get_id(), 3);
    assert!(store.remove_order(2).is_none());
}

#[test]
fn get_index_finds_the_first_match() {
    let mut gen = IdGen::new();
    let mut store = OrderList::new();
    let names = items(&["Pie"]);
    for _ in 0..3 {
        store.add_order(Order::new(&names, &mut gen));
    }
    assert_eq!(store.get_index_from_order_id(1), Some(0));
    assert_eq!(store.get_index_from_order_id(3), Some(2));
    assert_eq!(store.get_index_from_order_id(9), None);
}

#[test]
fn print_order_renders_one_order() {
    let mut gen = IdGen::new();
    let mut store = OrderList::new();
    store.add_order(Order::new(&items(&["Burger", "Fries", "Burger"]), &mut gen));
    let text = store.print_order(1).unwrap();
    assert_eq!(text, "Order number: 1\nNot Ready\n2 Burger\n1 Fries\n");
    assert!(store.print_order(2).is_none());
}

#[test]
fn print_orders_after_removal_lists_the_survivors_in_order() {
    let mut gen = IdGen::new();
    let mut store = OrderList::new();
    let names = items(&["Jam"]);
    for _ in 0..3 {
        store.add_order(Order::new(&names, &mut gen));
    }
    assert!(store.remove_order(2).is_some());
    assert_eq!(store.print_orders(), "READY\nPENDING\n1\n3\n");
}

#[test]
fn print_orders_lists_a_readied_order_under_ready() {
    let mut gen = IdGen::new();
    let mut store = OrderList::new();
    store.add_order(Order::new(&items(&["Jam"]), &mut gen));
    assert!(store.ready_order(1));
    assert_eq!(store.print_orders(), "READY\n1\nPENDING\n");
}

#[test]
fn print_orders_keeps_each_section_ascending() {
    let mut gen = IdGen::new();
    let mut store = OrderList::new();
    let names = items(&["Jam"]);
    for _ in 0..5 {
        store.add_order(Order::new(&names, &mut gen));
    }
    assert!(store.ready_order(4));
    assert!(store.ready_order(1));
    assert_eq!(store.print_orders(), "READY\n1\n4\nPENDING\n2\n3\n5\n");
}

#[test]
fn print_orders_of_an_empty_store_is_just_the_headers() {
    let mut store = OrderList::new();
    assert_eq!(store.print_orders(), "READY\nPENDING\n");
}

#[test]
fn sort_orders_restores_ascending_ids() {
    let mut gen = IdGen::new();
    let mut store = OrderList::new();
    let names = items(&["Jam"]);
    for _ in 0..4 {
        store.add_order(Order::new(&names, &mut gen));
    }
    // move an order out of place by hand, then sort
    store.get_mut(0).unwrap().set_ready();
    let first = store.remove_order(1).unwrap();
    store.add_order(first);
    assert_eq!(store.get(3).unwrap().get_id(), 1);
    store.sort_orders();
    for k in 0..4 {
        assert_eq!(store.get(k).unwrap().get_id(), k + 1);
    }
    assert!(store.get(0).unwrap().is_ready());
}

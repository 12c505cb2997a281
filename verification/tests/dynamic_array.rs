use std::cell::Cell;
use std::rc::Rc;

use order_tracker::dynamic_array::DynamicArray;

#[test]
fn append_tracks_length_and_values() {
    let mut arr: DynamicArray<u64> = DynamicArray::new();
    assert_eq!(arr.len(), 0);
    for k in 0..10u64 {
        arr.append(k * 7);
        assert_eq!(arr.len(), (k + 1) as usize);
    }
    for k in 0..10u64 {
        assert_eq!(*arr.get(k as usize).unwrap(), k * 7);
    }
    assert!(arr.get(10).is_none());
}

#[test]
fn append_doubles_capacity_only_when_full() {
    let mut arr: DynamicArray<u64> = DynamicArray::new();
    assert_eq!(arr.capacity(), 0);
    arr.append(1);
    assert_eq!(arr.capacity(), 1);
    arr.append(2);
    assert_eq!(arr.capacity(), 2);
    arr.append(3);
    assert_eq!(arr.capacity(), 4);
    arr.append(4);
    assert_eq!(arr.capacity(), 4);
    arr.append(5);
    assert_eq!(arr.capacity(), 8);
}

#[test]
fn from_vec_sizes_capacity_exactly() {
    let arr: DynamicArray<u64> = DynamicArray::from_vec(vec![5, 6, 7]);
    assert_eq!(arr.len(), 3);
    assert_eq!(arr.capacity(), 3);
    assert_eq!(*arr.get(0).unwrap(), 5);
    assert_eq!(*arr.get(2).unwrap(), 7);
}

#[test]
fn remove_at_shifts_later_elements_down() {
    let mut arr: DynamicArray<u64> = DynamicArray::from_vec(vec![10, 20, 30, 40]);
    assert_eq!(arr.remove_at(1), Some(20));
    assert_eq!(arr.len(), 3);
    assert_eq!(*arr.get(0).unwrap(), 10);
    assert_eq!(*arr.get(1).unwrap(), 30);
    assert_eq!(*arr.get(2).unwrap(), 40);
}

#[test]
fn remove_at_out_of_range_changes_nothing() {
    let mut arr: DynamicArray<u64> = DynamicArray::from_vec(vec![10, 20, 30]);
    assert_eq!(arr.remove_at(3), None);
    assert_eq!(arr.remove_at(17), None);
    assert_eq!(arr.len(), 3);
    assert_eq!(arr.capacity(), 3);
    assert_eq!(*arr.get(0).unwrap(), 10);
    assert_eq!(*arr.get(1).unwrap(), 20);
    assert_eq!(*arr.get(2).unwrap(), 30);
}

#[test]
fn pop_hands_out_the_last_element() {
    let mut arr: DynamicArray<u64> = DynamicArray::from_vec(vec![1, 2, 3]);
    assert_eq!(arr.pop(), Some(3));
    assert_eq!(arr.pop(), Some(2));
    assert_eq!(arr.len(), 1);
    assert_eq!(arr.pop(), Some(1));
    assert_eq!(arr.pop(), None);
    assert_eq!(arr.len(), 0);
}

#[test]
fn get_mut_writes_in_place() {
    let mut arr: DynamicArray<u64> = DynamicArray::from_vec(vec![1, 2, 3]);
    *arr.get_mut(1).unwrap() = 99;
    assert_eq!(*arr.get(1).unwrap(), 99);
    assert!(arr.get_mut(3).is_none());
}

#[test]
fn swap_exchanges_two_indices() {
    let mut arr: DynamicArray<u64> = DynamicArray::from_vec(vec![1, 2, 3, 4]);
    arr.swap(0, 3);
    assert_eq!(*arr.get(0).unwrap(), 4);
    assert_eq!(*arr.get(3).unwrap(), 1);
    arr.swap(1, 1);
    assert_eq!(*arr.get(1).unwrap(), 2);
}

struct DropCounter {
    hits: Rc<Cell<usize>>,
}

impl Drop for DropCounter {
    fn drop(&mut self) {
        self.hits.set(self.hits.get() + 1);
    }
}

#[test]
fn drop_releases_every_element_exactly_once() {
    let hits: Rc<Cell<usize>> = Rc::new(Cell::new(0));
    {
        let mut arr: DynamicArray<DropCounter> = DynamicArray::new();
        for _ in 0..5 {
            arr.append(DropCounter { hits: Rc::clone(&hits) });
        }
        assert_eq!(hits.get(), 0);
    }
    assert_eq!(hits.get(), 5);
}

#[test]
fn popped_element_is_owned_by_the_caller() {
    let hits: Rc<Cell<usize>> = Rc::new(Cell::new(0));
    let mut arr: DynamicArray<DropCounter> = DynamicArray::new();
    arr.append(DropCounter { hits: Rc::clone(&hits) });
    arr.append(DropCounter { hits: Rc::clone(&hits) });
    let taken = arr.pop().unwrap();
    assert_eq!(hits.get(), 0);
    drop(taken);
    assert_eq!(hits.get(), 1);
    drop(arr);
    assert_eq!(hits.get(), 2);
}

#[test]
fn removed_element_is_dropped_only_by_the_caller() {
    let hits: Rc<Cell<usize>> = Rc::new(Cell::new(0));
    let mut arr: DynamicArray<DropCounter> = DynamicArray::new();
    for _ in 0..3 {
        arr.append(DropCounter { hits: Rc::clone(&hits) });
    }
    let taken = arr.remove_at(0).unwrap();
    assert_eq!(hits.get(), 0);
    drop(taken);
    assert_eq!(hits.get(), 1);
    drop(arr);
    assert_eq!(hits.get(), 3);
}

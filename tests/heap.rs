use minheap::heap::{EmptyQueueError, Heap, PriorityQueue};

fn drain<T: minheap::order::TotalOrder>(heap: &mut Heap<T>) -> Vec<T> {
    let mut out = Vec::new();
    while !heap.is_empty() {
        out.push(heap.remove_top().unwrap());
    }
    out
}

#[test]
fn inserts_then_drain_in_order() {
    let mut heap = Heap::<i32>::new();
    for x in [20, 5, 35, 2, 95, 22, 50] {
        heap.insert(x);
    }
    assert_eq!(heap.count(), 7);
    assert_eq!(heap.top(), Ok(2));
    assert_eq!(drain(&mut heap), vec![2, 5, 20, 22, 35, 50, 95]);
    assert_eq!(heap.count(), 0);
    assert_eq!(heap.buffer().len(), 7);
}

#[test]
fn from_vec_then_drain() {
    let mut heap = Heap::from_vec(vec![5, 3, 7, 1]);
    assert_eq!(heap.count(), 4);
    assert_eq!(drain(&mut heap), vec![1, 3, 5, 7]);
}

#[test]
fn sort_names_twice() {
    let mut heap = Heap::from_vec(vec!["Erik", "Bente", "Anders", "Dorte", "Christine"]);
    heap.sort();
    let expected = vec!["Anders", "Bente", "Christine", "Dorte", "Erik"];
    assert_eq!(heap.buffer(), &expected);
    assert_eq!(heap.count(), 5);
    heap.sort();
    assert_eq!(heap.buffer(), &expected);
    assert_eq!(heap.count(), 5);
}

#[test]
fn empty_queue_errors_leave_state() {
    let mut heap = Heap::<i32>::new();
    assert_eq!(heap.top(), Err(EmptyQueueError));
    assert_eq!(heap.remove_top(), Err(EmptyQueueError));
    assert!(heap.is_empty());
    assert_eq!(heap.count(), 0);
    assert_eq!(heap.buffer().len(), 0);

    heap.insert(4);
    assert_eq!(heap.remove_top(), Ok(4));
    assert_eq!(heap.remove_top(), Err(EmptyQueueError));
    assert_eq!(heap.buffer(), &vec![4]);
    assert_eq!(heap.count(), 0);
}

#[test]
fn live_slots_keep_heap_order() {
    let mut heap = Heap::from_vec(vec![9, 4, 8, 1, 7, 3, 6, 2, 5, 0]);
    heap.remove_top().unwrap();
    heap.insert(-3);
    heap.remove_top().unwrap();
    heap.insert(11);
    let n = heap.count();
    let b = heap.buffer();
    for i in 0..n {
        for c in [2 * i + 1, 2 * i + 2] {
            if c < n {
                assert!(b[i] <= b[c]);
            }
        }
    }
}

#[test]
fn count_follows_inserts_and_removals() {
    let mut heap = Heap::<i32>::new();
    heap.insert(3);
    heap.insert(1);
    heap.insert(2);
    heap.remove_top().unwrap();
    heap.insert(0);
    heap.remove_top().unwrap();
    assert_eq!(heap.count(), 2);
    assert_eq!(drain(&mut heap), vec![2, 3]);
}

#[test]
fn insert_reuses_retired_slot() {
    let mut heap = Heap::from_vec(vec![10, 30, 20]);
    assert_eq!(heap.remove_top(), Ok(10));
    assert_eq!(heap.buffer().len(), 3);
    heap.insert(5);
    assert_eq!(heap.buffer().len(), 3);
    assert_eq!(heap.count(), 3);
    assert_eq!(drain(&mut heap), vec![5, 20, 30]);
}

#[test]
fn sort_drops_retired_tail_and_keeps_duplicates() {
    let mut heap = Heap::from_vec(vec![4, 1, 4, 2, 1, 9]);
    assert_eq!(heap.remove_top(), Ok(1));
    heap.sort();
    assert_eq!(heap.buffer(), &vec![1, 2, 4, 4, 9]);
    assert_eq!(heap.count(), 5);
    assert_eq!(heap.remove_top(), Ok(1));
}

#[test]
fn sort_of_empty_heap() {
    let mut heap = Heap::<i32>::new();
    heap.sort();
    assert_eq!(heap.buffer().len(), 0);
    assert!(heap.is_empty());
}

#[test]
fn strings_compare_by_character() {
    let mut heap = Heap::from_vec(vec!["b", "ab", "a", "", "ba", "Z"]);
    heap.sort();
    assert_eq!(heap.buffer(), &vec!["", "Z", "a", "ab", "b", "ba"]);
}

#[test]
fn equal_keys_drain_together() {
    let mut heap = Heap::from_vec(vec![7, 7, 7, 3, 3]);
    assert_eq!(drain(&mut heap), vec![3, 3, 7, 7, 7]);
}

#[test]
fn inserts_leave_sift_up_layout() {
    let mut heap = Heap::<i32>::new();
    for x in [20, 5, 35, 2, 95, 22, 50] {
        heap.insert(x);
    }
    assert_eq!(heap.buffer(), &vec![2, 5, 22, 20, 95, 35, 50]);
}

#[test]
fn remove_top_leaves_sift_down_layout() {
    let mut heap = Heap::<i32>::new();
    for x in [0, 5, 1, 6, 7, 3, 4, 9] {
        heap.insert(x);
    }
    assert_eq!(heap.buffer(), &vec![0, 5, 1, 6, 7, 3, 4, 9]);
    assert_eq!(heap.remove_top(), Ok(0));
    assert_eq!(heap.count(), 7);
    assert_eq!(heap.buffer(), &vec![1, 5, 3, 6, 7, 9, 4, 0]);
}

#[test]
fn from_vec_matches_repeated_inserts() {
    let heap = Heap::from_vec(vec![5, 3, 7, 1]);
    assert_eq!(heap.buffer(), &vec![1, 3, 7, 5]);
    let mut other = Heap::<i32>::new();
    for x in [5, 3, 7, 1] {
        other.insert(x);
    }
    assert_eq!(other.buffer(), heap.buffer());
    assert_eq!(other.count(), heap.count());
}

#[test]
fn top_on_drained_heap_is_an_error() {
    let mut heap = Heap::from_vec(vec![3, 1]);
    heap.remove_top().unwrap();
    heap.remove_top().unwrap();
    assert_eq!(heap.top(), Err(EmptyQueueError));
    assert_eq!(heap.buffer(), &vec![3, 1]);
}

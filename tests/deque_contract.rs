use std::collections::VecDeque;

use deques::{ArrayDeque, AveragingDeque, Deque, LinkedListDeque};

/// Runs one fixed interleaving of operations on `d` and on a model, checking
/// after every step that both agree.
fn follow_model<D: Deque<Item = i32>>(mut d: D) {
    let mut model: VecDeque<i32> = VecDeque::new();
    let mut state: u32 = 12345;
    for step in 0..20000 {
        state = state.wrapping_mul(1103515245).wrapping_add(12345);
        let value = (state >> 8) as i32 % 1000;
        match (state >> 20) % 6 {
            0 | 1 => {
                d.add_first(value);
                model.push_front(value);
            }
            2 => {
                d.add_last(value);
                model.push_back(value);
            }
            3 => assert_eq!(d.remove_first(), model.pop_front(), "step {step}"),
            4 => assert_eq!(d.remove_last(), model.pop_back(), "step {step}"),
            _ => {
                while let Some(x) = model.pop_front() {
                    assert_eq!(d.remove_first(), Some(x));
                }
                assert_eq!(d.remove_first(), None);
            }
        }
        assert_eq!(d.len(), model.len());
        assert_eq!(d.is_empty(), model.is_empty());
        assert_eq!(d.get_first(), model.front());
        assert_eq!(d.get_last(), model.back());
    }
}

#[test]
fn array_deque_follows_the_model() {
    follow_model(ArrayDeque::new());
}

#[test]
fn linked_list_deque_follows_the_model() {
    follow_model(LinkedListDeque::new());
}

#[test]
fn averaging_deque_follows_the_model() {
    follow_model(AveragingDeque::new());
}

#[test]
fn fifo_and_lifo_round_trips() {
    let mut a: ArrayDeque<i32> = Deque::new();
    let mut l: LinkedListDeque<i32> = Deque::new();
    for i in 0..1000 {
        a.add_last(i);
        l.add_first(i);
    }
    for i in 0..1000 {
        assert_eq!(a.remove_first(), Some(i));
        assert_eq!(l.remove_first(), Some(999 - i));
    }
}

#[test]
fn averaging_deque_withholds_mutable_access() {
    let mut d: AveragingDeque<i32> = Deque::new();
    Deque::add_last(&mut d, 4);
    assert!(Deque::get_first_mut(&mut d).is_none());
    assert!(Deque::get_last_mut(&mut d).is_none());
    assert_eq!(d.average(), Some((4, 1)));
}

#[test]
fn round_trips_on_every_deque() {
    let items: Vec<i32> = (0..500).map(|i| i * 7 % 101).collect();
    let mut reversed = items.clone();
    reversed.reverse();
    assert_eq!(deques::model::fifo_round_trip::<ArrayDeque<i32>>(items.clone()), items);
    assert_eq!(deques::model::fifo_round_trip::<LinkedListDeque<i32>>(items.clone()), items);
    assert_eq!(deques::model::fifo_round_trip::<AveragingDeque<i32>>(items.clone()), items);
    assert_eq!(deques::model::lifo_round_trip::<ArrayDeque<i32>>(items.clone()), reversed);
    assert_eq!(deques::model::lifo_round_trip::<LinkedListDeque<i32>>(items.clone()), reversed);
    assert_eq!(deques::model::lifo_round_trip::<AveragingDeque<i32>>(items.clone()), reversed);
    assert_eq!(deques::model::fifo_round_trip::<ArrayDeque<i32>>(Vec::new()), Vec::<i32>::new());
}

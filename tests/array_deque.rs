use deques::ArrayDeque;
use rand::Rng;

#[test]
fn add_is_empty_size_test() {
    let mut lld = ArrayDeque::new();
    assert!(lld.is_empty());

    lld.add_first("front");
    assert_eq!(1, lld.len());

    lld.add_last("middle");
    assert_eq!(2, lld.len());

    lld.add_last("back");
    assert_eq!(3, lld.len());

    assert_eq!(lld.to_string(), "[front, middle, back]");
}

#[test]
fn arraydeque_add_remove_test() {
    let mut lld = ArrayDeque::new();
    assert!(lld.is_empty());

    lld.add_first(10);
    assert_eq!(false, lld.is_empty());

    let el = lld.remove_first();
    assert_eq!(el, Some(10));
    assert!(lld.is_empty());

    let el = lld.remove_first();
    assert_eq!(el, None);
    assert!(lld.is_empty());

    let el = lld.remove_first();
    assert_eq!(el, None);
    assert!(lld.is_empty());
}

#[test]
fn arraydeque_remove_empty_test() {
    let mut lld = ArrayDeque::new();
    lld.add_first(10);

    let el = lld.remove_last();
    assert_eq!(el, Some(10));
    assert!(lld.is_empty());

    let el = lld.remove_first();
    assert_eq!(el, None);
    assert!(lld.is_empty());

    let el = lld.remove_last();
    assert_eq!(el, None);
    assert!(lld.is_empty());

    let el = lld.remove_first();
    assert_eq!(el, None);
    assert!(lld.is_empty());

    assert_eq!(lld.len(), 0);
}

#[test]
fn multiple_param_test() {
    let mut lld = ArrayDeque::new();
    lld.add_first(10 as i32);
    assert_eq!(lld.remove_last(), Some(10));

    let mut lld = ArrayDeque::new();
    lld.add_first(10. as f64);
    assert_eq!(lld.remove_last(), Some(10.));

    let mut lld = ArrayDeque::new();
    lld.add_first(10 as usize);
    assert_eq!(lld.remove_last(), Some(10));

    let mut lld = ArrayDeque::new();
    lld.add_first(true);
    assert_eq!(lld.remove_last(), Some(true));

    let mut lld = ArrayDeque::new();
    lld.add_first("cheese");
    assert_eq!(lld.remove_last(), Some("cheese"));

    let mut lld = ArrayDeque::new();
    lld.add_first("cheese".to_string());
    assert_eq!(lld.remove_last(), Some("cheese".to_string()));
}

#[test]
fn arraydeque_really_empty_test() {
    let mut lld = ArrayDeque::<i32>::new();
    assert_eq!(lld.remove_first(), None);
    assert_eq!(lld.remove_last(), None);
    assert_eq!(lld.get_first(), None);
    assert_eq!(lld.get_last(), None);
    assert_eq!(lld.get_first_mut(), None);
    assert_eq!(lld.get_last_mut(), None);
}

#[test]
fn arraydeque_big_test() {
    const N: usize = 1000000;
    const MID: usize = 500000;
    let mut lld = ArrayDeque::new();
    for i in 0..N {
        lld.add_last(i);
    }
    for i in 0..MID {
        assert_eq!(Some(i), lld.remove_first());
    }
    for i in (MID + 1..N).rev() {
        assert_eq!(Some(i), lld.remove_last());
    }
}

#[test]
fn arraydeque_get_test() {
    let mut lld = ArrayDeque::new();
    lld.add_first(10);
    lld.add_first(5);

    let b = lld.get_first_mut().unwrap();
    *b = 64;

    let b = lld.get_last_mut().unwrap();
    *b = 65;

    lld.add_last(66);
    assert_eq!(Some(&64), lld.get_first());
    assert_eq!(Some(&66), lld.get_last());
    assert_eq!(lld.to_string(), "[64, 65, 66]");
}

#[test]
fn arraydeque_get_fist_remove_next_back_test() {
    let mut lld = ArrayDeque::new();
    lld.add_first(10);
    lld.add_last(5);
    lld.add_first(20);

    assert_eq!(Some(20), lld.remove_first());
    assert_eq!(Some(10), lld.remove_first());
    assert_eq!(Some(5), lld.remove_last());
    assert_eq!(None, lld.remove_first());
}

#[test]
fn arraydeque_get_last_remove_next_back_test() {
    let mut lld = ArrayDeque::new();
    lld.add_last(10);
    lld.add_first(5);
    lld.add_last(20);

    assert_eq!(Some(20), lld.remove_last());
    assert_eq!(Some(10), lld.remove_last());
    assert_eq!(Some(5), lld.remove_first());
    assert_eq!(None, lld.remove_first());
}

#[test]
fn arraydeque_random_test() {
    const TIMES: i32 = 100000;
    let mut rng = rand::thread_rng();
    let mut lld = ArrayDeque::new();
    let mut vector = Vec::new();

    for _ in 0..TIMES {
        match rng.gen_range(0..7) {
            0 => {
                assert_eq!(vector.len(), lld.len());
            }
            1 => {
                let value = rng.gen_range(0..100);
                lld.add_first(value);
                vector.insert(0, value);
            }
            2 => {
                let value = rng.gen_range(0..100);
                lld.add_last(value);
                vector.push(value);
            }
            3 => {
                assert_eq!(vector.last(), lld.get_last());
            }
            4 => {
                assert_eq!(vector.get(0), lld.get_first());
            }
            5 => {
                assert_eq!(vector.pop(), lld.remove_last());
            }
            _ => {
                if vector.len() > 0 {
                    assert_eq!(Some(vector.remove(0)), lld.remove_first())
                } else {
                    assert_eq!(None, lld.remove_first());
                }
            }
        }
    }
}

#[test]
fn arraydeque_empty_renders_as_brackets() {
    let lld = ArrayDeque::<i32>::new();
    assert_eq!(lld.to_string(), "[]");
}

#[test]
fn arraydeque_renders_three_in_order() {
    let mut lld = ArrayDeque::new();
    lld.add_last(1);
    lld.add_last(2);
    lld.add_last(3);
    assert_eq!(lld.to_string(), "[1, 2, 3]");
}

#[test]
fn arraydeque_add_first_remove_last_single() {
    let mut lld = ArrayDeque::new();
    lld.add_first(10);
    assert_eq!(lld.remove_last(), Some(10));
    assert!(lld.is_empty());
    assert_eq!(lld.len(), 0);
}

#[test]
fn arraydeque_wraps_around_and_grows() {
    let mut lld = ArrayDeque::new();
    for i in 0..5 {
        lld.add_first(i);
    }
    for i in 5..20 {
        lld.add_last(i);
    }
    assert_eq!(
        lld.to_string(),
        "[4, 3, 2, 1, 0, 5, 6, 7, 8, 9, 10, 11, 12, 13, 14, 15, 16, 17, 18, 19]"
    );
    for i in (0..5).rev() {
        assert_eq!(lld.remove_first(), Some(i));
    }
    assert_eq!(lld.remove_first(), Some(5));
    assert_eq!(lld.remove_last(), Some(19));
    assert_eq!(lld.len(), 13);
}

#[test]
fn arraydeque_add_first_then_remove_first_reverses() {
    let mut lld = ArrayDeque::new();
    for i in 0..100 {
        lld.add_first(i);
    }
    for i in (0..100).rev() {
        assert_eq!(lld.remove_first(), Some(i));
    }
    assert_eq!(lld.remove_first(), None);
}

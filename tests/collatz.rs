use deques::next_number;

#[test]
fn collatz_steps_from_five_reach_one() {
    let mut n = 5;
    let mut seen = vec![n];
    while n != 1 {
        n = next_number(n);
        seen.push(n);
    }
    assert_eq!(seen, vec![5, 16, 8, 4, 2, 1]);
}

#[test]
fn collatz_step_of_odd_and_even() {
    assert_eq!(next_number(7), 22);
    assert_eq!(next_number(10), 5);
    assert_eq!(next_number(0), 0);
}

use rust_lox::util::DoublePeeker;

#[test]
fn test_next() {
    let vec = Vec::from([1, 2, 3, 4, 5]);
    let mut double_peeker = DoublePeeker::new(vec.iter());

    assert_eq!(Some(&1), double_peeker.next());
    assert_eq!(Some(&2), double_peeker.next());
    assert_eq!(Some(&3), double_peeker.next());
    assert_eq!(Some(&4), double_peeker.next());
    assert_eq!(Some(&5), double_peeker.next());
    assert_eq!(None, double_peeker.next());
}

#[test]
fn test_peek() {
    let vec = Vec::from([1, 2, 3, 4, 5]);
    let mut double_peeker = DoublePeeker::new(vec.iter());

    assert_eq!(Some(&1), double_peeker.next());
    assert_eq!(Some(&2), double_peeker.next());
    assert_eq!(Some(&3), double_peeker.next());
    assert_eq!(Some(&4), double_peeker.peek());
    assert_eq!(Some(&4), double_peeker.next());
    assert_eq!(Some(&5), double_peeker.next());
    assert_eq!(None, double_peeker.next());
}

#[test]
fn test_peek_next() {
    let vec = Vec::from([1, 2, 3, 4, 5]);

    let mut double_peeker = DoublePeeker::new(vec.iter());

    assert_eq!(Some(&1), double_peeker.next());
    assert_eq!(Some(&2), double_peeker.next());
    assert_eq!(Some(&3), double_peeker.next());
    assert_eq!(Some(&4), double_peeker.peek());
    assert_eq!(Some(&5), double_peeker.peek_next());
    assert_eq!(Some(&4), double_peeker.next());
    assert_eq!(Some(&5), double_peeker.next());
    assert_eq!(None, double_peeker.next());
}

#[test]
fn test_peek_none() {
    let vec = Vec::from([1, 2, 3, 4, 5]);

    let mut double_peeker = DoublePeeker::new(vec.iter());

    assert_eq!(Some(&1), double_peeker.next());
    assert_eq!(Some(&2), double_peeker.next());
    assert_eq!(Some(&3), double_peeker.next());
    assert_eq!(Some(&4), double_peeker.next());
    assert_eq!(Some(&5), double_peeker.next());
    assert_eq!(None, double_peeker.peek());
    assert_eq!(None, double_peeker.peek_next());
    assert_eq!(None, double_peeker.next());
}

#[test]
fn test_peek_strings() {
    let vec = Vec::from(["a", "b", "c", "d", "e"]);

    let mut double_peeker = DoublePeeker::new(vec.iter());

    assert_eq!(Some(&"a"), double_peeker.next());
    assert_eq!(Some(&"b"), double_peeker.next());
    assert_eq!(Some(&"c"), double_peeker.next());
    assert_eq!(Some(&"d"), double_peeker.peek());
    assert_eq!(Some(&"e"), double_peeker.peek_next());
    assert_eq!(Some(&"d"), double_peeker.next());
    assert_eq!(None, double_peeker.peek_next());
    assert_eq!(Some(&"e"), double_peeker.next());
    assert_eq!(None, double_peeker.next());
}

#[test]
fn repeated_peeks_leave_the_next_pull_unchanged() {
    let vec = Vec::from([10, 20, 30]);
    let mut double_peeker = DoublePeeker::new(vec.iter());

    for _ in 0..5 {
        assert_eq!(Some(&10), double_peeker.peek());
        assert_eq!(Some(&20), double_peeker.peek_next());
    }
    assert_eq!(Some(&10), double_peeker.next());
    for _ in 0..3 {
        assert_eq!(Some(&30), double_peeker.peek_next());
        assert_eq!(Some(&20), double_peeker.peek());
    }
    assert_eq!(Some(&20), double_peeker.next());
    assert_eq!(Some(&30), double_peeker.next());
    assert_eq!(None, double_peeker.next());
}

#[test]
fn peek_next_first_then_pull_in_order() {
    let vec = Vec::from(['x', 'y']);
    let mut double_peeker = DoublePeeker::new(vec.iter());

    assert_eq!(Some(&'y'), double_peeker.peek_next());
    assert_eq!(Some(&'x'), double_peeker.next());
    assert_eq!(None, double_peeker.peek_next());
    assert_eq!(Some(&'y'), double_peeker.peek());
    assert_eq!(Some(&'y'), double_peeker.next());
}

#[test]
fn exhausted_buffer_stays_exhausted() {
    let vec: Vec<u8> = Vec::new();
    let mut double_peeker = DoublePeeker::new(vec.iter());

    for _ in 0..3 {
        assert_eq!(None, double_peeker.peek());
        assert_eq!(None, double_peeker.peek_next());
        assert_eq!(None, double_peeker.next());
    }
}

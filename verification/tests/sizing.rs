use memory_manager::next_largest;

#[test]
fn next_largest_of_small_requests() {
    assert_eq!(next_largest(0), 1);
    assert_eq!(next_largest(1), 1);
    assert_eq!(next_largest(2), 2);
    assert_eq!(next_largest(3), 4);
    assert_eq!(next_largest(4), 4);
    assert_eq!(next_largest(5), 8);
    assert_eq!(next_largest(1000), 1024);
    assert_eq!(next_largest(1024), 1024);
    assert_eq!(next_largest(1025), 2048);
    assert_eq!(next_largest(65535), 65536);
}

#[test]
fn next_largest_of_the_largest_request() {
    let top: usize = usize::MAX / 2 + 1;
    assert_eq!(next_largest(top), top);
    assert_eq!(next_largest(top - 1), top);
    assert_eq!(next_largest(top / 2 + 1), top);
}

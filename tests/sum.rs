#[test]
fn add_works() {
    let result = bintree::add(2, 2);
    assert_eq!(result, 4);
}

#[test]
fn add_reaches_the_largest_value() {
    assert_eq!(bintree::add(u64::MAX - 1, 1), u64::MAX);
    assert_eq!(bintree::add(0, 0), 0);
}

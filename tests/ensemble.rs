use physics::ensemble::remove_particle;

#[test]
fn remove_in_range_keeps_order() {
    let mut v = vec![10, 20, 30, 40];
    remove_particle(&mut v, 1);
    assert_eq!(v, vec![10, 30, 40]);
    remove_particle(&mut v, 2);
    assert_eq!(v, vec![10, 30]);
}

#[test]
fn remove_out_of_range_is_a_no_op() {
    let mut v = vec![1, 2, 3];
    remove_particle(&mut v, 3);
    assert_eq!(v, vec![1, 2, 3]);
    remove_particle(&mut v, usize::MAX);
    assert_eq!(v, vec![1, 2, 3]);
    let mut empty: Vec<u8> = vec![];
    remove_particle(&mut empty, 0);
    assert!(empty.is_empty());
}

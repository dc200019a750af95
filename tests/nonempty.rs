use euler::nonempty::NonEmptyVec;

#[test]
fn nonempty_vec_basics() {
    let mut v = NonEmptyVec::singleton(5);
    assert_eq!(v.len(), 1);
    v.push(6);
    v.push(7);
    assert_eq!(v.len(), 3);
    assert_eq!(*v.index(0), 5);
    assert_eq!(*v.index(2), 7);
    v.set(1, 60);
    assert_eq!(*v.index(1), 60);
    let w = NonEmptyVec::new(1, vec![2, 3]);
    assert_eq!(w.len(), 3);
    assert_eq!(w.head, 1);
}

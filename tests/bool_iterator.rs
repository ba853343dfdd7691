use boolfunc::BoolIterator;

#[test]
fn bool_iterator_0() {
    let mut iter = BoolIterator::new(0);
    assert_eq!(None, iter.next());
}

#[test]
fn bool_iterator_1() {
    let mut iter = BoolIterator::new(1);
    assert_eq!(Some(vec![false]), iter.next());
    assert_eq!(Some(vec![true]), iter.next());
    assert_eq!(None, iter.next());
}

#[test]
fn bool_iterator_2() {
    let mut iter = BoolIterator::new(2);
    assert_eq!(Some(vec![false, false]), iter.next());
    assert_eq!(Some(vec![true, false]), iter.next());
    assert_eq!(Some(vec![false, true]), iter.next());
    assert_eq!(Some(vec![true, true]), iter.next());
    assert_eq!(None, iter.next());
}

use listor::Listor;

#[test]
fn test_unbounded_reuses_indexes() {
    let mut listor = Listor::new();

    let _ = listor.push_back(4);
    let idx = listor.push_back(5).unwrap();
    let _ = listor.push_back(6);
    let _ = listor.push_back(7);

    // remove three elements
    listor.pop_front();
    listor.pop_back();
    listor.remove(idx);

    // re-insert three elements
    let _ = listor.push_back(9);
    let _ = listor.push_front(8);
    let _ = listor.push_back(7);

    assert_eq!(4, listor.len());

    for i in 0..4 {
        assert!(listor.get(i).is_some())
    }
}

#[test]
fn remove_preserves_iteration_order() {
    let mut listor = Listor::new();

    let idx1 = listor.push_back(4).unwrap();
    let _ = listor.push_back(5);
    let _ = listor.push_back(6);
    let idx2 = listor.push_back(7).unwrap();

    listor.remove(idx1);
    listor.remove(idx2);

    let _ = listor.push_back(8);

    let mut iter = listor.iter();

    assert_eq!(Some(&5), iter.next());
    assert_eq!(Some(&6), iter.next());
    assert_eq!(Some(&8), iter.next());
    assert_eq!(None, iter.next());
}

#[test]
fn removing_only_element() {
    let mut listor = Listor::bounded(4);

    let idx1 = listor.push_back(4).unwrap();

    listor.remove(idx1);

    let _ = listor.push_back(8);
    let _ = listor.push_back(9);
    let _ = listor.push_back(10);
    let _ = listor.push_back(11);

    let mut iter = listor.iter();

    assert_eq!(Some(&8), iter.next());
    assert_eq!(Some(&9), iter.next());
    assert_eq!(Some(&10), iter.next());
    assert_eq!(Some(&11), iter.next());
    assert_eq!(None, iter.next());
}

#[test]
fn removing_middle_element() {
    let mut listor = Listor::bounded(4);

    let _ = listor.push_back(7);
    let idx1 = listor.push_back(8).unwrap();

    let _ = listor.push_back(9);
    let _ = listor.push_back(10);

    listor.remove(idx1);

    let _ = listor.push_back(11);

    assert_eq!(Some(7), listor.pop_front());
    assert_eq!(Some(9), listor.pop_front());
    assert_eq!(Some(10), listor.pop_front());
    assert_eq!(Some(11), listor.pop_front());
    assert_eq!(None, listor.pop_front());
}

#[test]
fn pop_front_preserves_iteration_order() {
    let mut listor = Listor::new();

    let _ = listor.push_back(4);
    let _ = listor.push_back(5);
    let _ = listor.push_back(6);
    let _ = listor.push_back(7);
    let _ = listor.push_back(8);

    listor.pop_front();
    listor.pop_front();
    listor.pop_back();

    let _ = listor.push_back(9);

    let mut iter = listor.iter();

    assert_eq!(Some(&6), iter.next());
    assert_eq!(Some(&7), iter.next());
    assert_eq!(Some(&9), iter.next());
    assert_eq!(None, iter.next());
}

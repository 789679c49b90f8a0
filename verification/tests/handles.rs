use listor::Listor;

fn contents(listor: &Listor<i32>) -> Vec<i32> {
    let mut out = Vec::new();
    let mut iter = listor.iter();
    while let Some(value) = iter.next() {
        out.push(*value);
    }
    out
}

fn live_handles(listor: &Listor<i32>, slots: usize) -> usize {
    (0..slots).filter(|handle| listor.get(*handle).is_some()).count()
}

#[test]
fn len_counts_the_handles_that_hold_a_value() {
    let mut listor = Listor::new();
    assert_eq!(0, live_handles(&listor, 8));
    for value in 0..5 {
        listor.push_back(value).unwrap();
        assert_eq!(listor.len(), live_handles(&listor, 8));
    }
    listor.remove(2);
    assert_eq!(4, listor.len());
    assert_eq!(listor.len(), live_handles(&listor, 8));
    listor.pop_front();
    listor.pop_back();
    assert_eq!(2, listor.len());
    assert_eq!(listor.len(), live_handles(&listor, 8));
    listor.push_front(9).unwrap();
    assert_eq!(3, listor.len());
    assert_eq!(listor.len(), live_handles(&listor, 8));
    listor.clear();
    assert_eq!(0, listor.len());
    assert_eq!(0, live_handles(&listor, 8));
}

#[test]
fn removing_any_handle_keeps_the_others_in_order() {
    for removed in 0..5usize {
        let mut listor = Listor::new();
        for value in [10, 11, 12, 13, 14] {
            listor.push_back(value).unwrap();
        }
        assert_eq!(Some(10 + removed as i32), listor.remove(removed));
        let expected: Vec<i32> =
            [10, 11, 12, 13, 14].into_iter().filter(|v| *v != 10 + removed as i32).collect();
        assert_eq!(expected, contents(&listor));
        for handle in 0..5usize {
            if handle == removed {
                assert_eq!(None, listor.get(handle));
            } else {
                assert_eq!(Some(&(10 + handle as i32)), listor.get(handle));
            }
        }
    }
}

#[test]
fn removing_after_push_front_keeps_the_others_in_order() {
    for removed in 0..4usize {
        let mut listor = Listor::bounded(4);
        listor.push_back(1).unwrap();
        listor.push_front(0).unwrap();
        listor.push_back(2).unwrap();
        listor.push_front(-1).unwrap();
        assert_eq!(vec![-1, 0, 1, 2], contents(&listor));
        let value = listor.remove(removed).unwrap();
        let expected: Vec<i32> = [-1, 0, 1, 2].into_iter().filter(|v| *v != value).collect();
        assert_eq!(expected, contents(&listor));
        assert_eq!(Some(removed), listor.next_vacant_index());
    }
}

#[test]
fn bounded_list_takes_exactly_its_capacity() {
    let mut listor = Listor::bounded(3);
    assert_eq!(Ok(0), listor.push_back(1));
    assert_eq!(Ok(1), listor.push_front(2));
    assert_eq!(Ok(2), listor.push_back(3));
    assert_eq!(Err(4), listor.push_back(4));
    assert_eq!(Err(5), listor.push_front(5));
    assert_eq!(3, listor.len());
    assert_eq!(None, listor.next_vacant_index());

    assert_eq!(Some(1), listor.remove(0));
    assert_eq!(Some(0), listor.next_vacant_index());
    assert_eq!(Ok(0), listor.push_back(6));
    assert_eq!(Err(7), listor.push_back(7));
    assert_eq!(Err(8), listor.push_front(8));
    assert_eq!(vec![2, 3, 6], contents(&listor));
}

#[test]
fn bounded_list_without_slots_takes_nothing() {
    let mut listor = Listor::bounded(0);
    assert_eq!(None, listor.next_vacant_index());
    assert_eq!(Err(1), listor.push_back(1));
    assert_eq!(Err(2), listor.push_front(2));
    assert_eq!(0, listor.len());
    assert_eq!(None, listor.remove(0));
    assert_eq!(None, listor.peek_front());
    listor.clear();
    assert_eq!(Err(3), listor.push_back(3));
}

#[test]
fn churn_does_not_grow_the_index_space() {
    let mut listor = Listor::new();
    let mut handles = vec![
        listor.push_back(0).unwrap(),
        listor.push_back(1).unwrap(),
        listor.push_back(2).unwrap(),
    ];
    for round in 0..100 {
        let victim = handles.remove(round % 3);
        assert!(listor.remove(victim).is_some());
        assert_eq!(Some(victim), listor.next_vacant_index());
        let fresh = if round % 2 == 0 {
            listor.push_back(round as i32).unwrap()
        } else {
            listor.push_front(round as i32).unwrap()
        };
        assert_eq!(victim, fresh);
        assert!(fresh < 3);
        handles.push(fresh);
        assert_eq!(3, listor.len());
    }
    assert_eq!(Some(3), listor.next_vacant_index());
}

#[test]
fn freed_handles_are_reused_last_freed_first() {
    let mut listor = Listor::new();
    for value in 0..5 {
        listor.push_back(value).unwrap();
    }
    assert_eq!(Some(1), listor.remove(1));
    assert_eq!(Some(3), listor.remove(3));
    assert_eq!(Some(0), listor.remove(0));

    assert_eq!(Some(0), listor.next_vacant_index());
    assert_eq!(Ok(0), listor.push_back(10));
    assert_eq!(Some(3), listor.next_vacant_index());
    assert_eq!(Ok(3), listor.push_back(11));
    assert_eq!(Some(1), listor.next_vacant_index());
    assert_eq!(Ok(1), listor.push_back(12));
    assert_eq!(Some(5), listor.next_vacant_index());
    assert_eq!(Ok(5), listor.push_back(13));
    assert_eq!(vec![2, 4, 10, 11, 12, 13], contents(&listor));
}

#[test]
fn popped_tail_is_reused_before_older_vacancies() {
    let mut listor = Listor::bounded(4);
    for value in 0..4 {
        listor.push_back(value).unwrap();
    }
    assert_eq!(Some(1), listor.remove(1));
    assert_eq!(Some(3), listor.pop_back());
    assert_eq!(Ok(3), listor.push_front(7));
    assert_eq!(Ok(1), listor.push_front(8));
    assert_eq!(Err(9), listor.push_front(9));
    assert_eq!(vec![8, 7, 0, 2], contents(&listor));
}

#[test]
fn stale_handle_reads_the_new_value() {
    let mut listor = Listor::new();
    let first = listor.push_back(1).unwrap();
    let _ = listor.push_back(2);
    assert_eq!(Some(1), listor.remove(first));
    assert_eq!(None, listor.get(first));
    assert_eq!(Ok(first), listor.push_back(3));
    assert_eq!(Some(&3), listor.get(first));
}

#[test]
fn clear_empties_the_list_and_keeps_its_slots() {
    let mut listor = Listor::new();
    let _ = listor.push_back(1);
    let _ = listor.push_back(2);
    let _ = listor.push_back(3);
    listor.remove(1);

    listor.clear();

    assert_eq!(0, listor.len());
    assert_eq!(None, listor.peek_front());
    assert_eq!(None, listor.peek_back());
    assert_eq!(None, listor.get(0));
    assert_eq!(Vec::<i32>::new(), contents(&listor));
    assert_eq!(Some(0), listor.next_vacant_index());
    assert_eq!(Ok(0), listor.push_back(4));
    assert_eq!(Ok(1), listor.push_back(5));
    assert_eq!(Ok(2), listor.push_back(6));
    assert_eq!(Ok(3), listor.push_back(7));
    assert_eq!(vec![4, 5, 6, 7], contents(&listor));
}

#[test]
fn clear_keeps_a_bounded_list_bounded() {
    let mut listor = Listor::bounded(2);
    let _ = listor.push_front(1);
    let _ = listor.push_front(2);
    listor.clear();
    assert_eq!(0, listor.len());
    assert_eq!(Ok(0), listor.push_front(3));
    assert_eq!(Ok(1), listor.push_front(4));
    assert_eq!(Err(5), listor.push_front(5));
    assert_eq!(vec![4, 3], contents(&listor));
}

#[test]
fn clear_on_a_list_without_slots() {
    let mut listor: Listor<i32> = Listor::new();
    listor.clear();
    assert_eq!(0, listor.len());
    assert_eq!(Some(0), listor.next_vacant_index());
    assert_eq!(Ok(0), listor.push_back(1));
    assert_eq!(vec![1], contents(&listor));
}

#[test]
fn remove_of_nothing_changes_nothing() {
    let mut listor = Listor::new();
    assert_eq!(None, listor.remove(4));

    let _ = listor.push_back(5);
    let idx = listor.push_back(6).unwrap();
    let _ = listor.push_back(7);

    assert_eq!(None, listor.remove(3));
    assert_eq!(None, listor.remove(usize::MAX));
    assert_eq!(Some(6), listor.remove(idx));
    assert_eq!(None, listor.remove(idx));
    assert_eq!(2, listor.len());

    assert_eq!(Some(5), listor.pop_front());
    assert_eq!(Some(7), listor.pop_front());
    assert_eq!(None, listor.pop_front());
}

#[test]
fn get_of_nothing_is_none() {
    let mut listor = Listor::with_capacity(3);
    assert_eq!(None, listor.get(0));
    assert_eq!(None, listor.get(2));
    assert_eq!(None, listor.get(3));
    assert_eq!(None, listor.get(usize::MAX));
    assert_eq!(None, listor.get_mut(0));
    assert_eq!(None, listor.get_mut(7));
    let _ = listor.push_back(1);
    assert_eq!(Some(&1), listor.get(0));
    assert_eq!(None, listor.get(1));
}

#[test]
fn get_mut_changes_the_value_in_place() {
    let mut listor = Listor::new();
    let _ = listor.push_back(1);
    let idx = listor.push_back(2).unwrap();
    let _ = listor.push_back(3);
    *listor.get_mut(idx).unwrap() = 20;
    assert_eq!(Some(&20), listor.get(idx));
    assert_eq!(3, listor.len());
    assert_eq!(vec![1, 20, 3], contents(&listor));
}

#[test]
fn index_reads_and_index_mut_writes() {
    let mut listor = Listor::new();
    let idx = listor.push_back(5).unwrap();
    let front = listor.push_front(4).unwrap();
    assert_eq!(5, *listor.index(idx));
    assert_eq!(4, *listor.index(front));
    *listor.index_mut(front) += 10;
    assert_eq!(14, *listor.index(front));
    assert_eq!(vec![14, 5], contents(&listor));
}

#[test]
fn next_vacant_index_names_the_slot_of_the_next_push() {
    let listor = Listor::<usize>::new();
    assert_eq!(Some(0), listor.next_vacant_index());

    let mut listor = Listor::bounded(3);
    let _ = listor.push_back(0);
    assert_eq!(Some(1), listor.next_vacant_index());
    assert_eq!(Ok(1), listor.push_front(1));
    assert_eq!(Some(2), listor.next_vacant_index());
    assert_eq!(Ok(2), listor.push_back(2));
    assert_eq!(None, listor.next_vacant_index());

    let listor = Listor::<usize>::bounded(0);
    assert_eq!(None, listor.next_vacant_index());

    let mut listor = Listor::with_capacity(1);
    assert_eq!(Some(0), listor.next_vacant_index());
    let _ = listor.push_back(0);
    assert_eq!(Some(1), listor.next_vacant_index());
    assert_eq!(1, listor.len());
}

#[test]
fn with_capacity_starts_empty_and_grows() {
    let mut listor = Listor::with_capacity(2);
    assert_eq!(0, listor.len());
    assert_eq!(None, listor.peek_front());
    assert_eq!(Ok(0), listor.push_back(1));
    assert_eq!(Ok(1), listor.push_back(2));
    assert_eq!(Ok(2), listor.push_back(3));
    assert_eq!(Ok(3), listor.push_front(0));
    assert_eq!(vec![0, 1, 2, 3], contents(&listor));
}

#[test]
fn default_is_an_empty_unbounded_list() {
    let mut listor: Listor<i32> = Default::default();
    assert_eq!(0, listor.len());
    assert_eq!(Some(0), listor.next_vacant_index());
    for value in 0..10 {
        assert_eq!(Ok(value as usize), listor.push_back(value));
    }
    assert_eq!(10, listor.len());
}

#[test]
fn values_need_not_be_copyable() {
    let mut listor = Listor::bounded(2);
    assert_eq!(Ok(0), listor.push_back(String::from("a")));
    assert_eq!(Ok(1), listor.push_front(String::from("b")));
    assert_eq!(Err(String::from("c")), listor.push_back(String::from("c")));
    listor.get_mut(0).unwrap().push('!');
    assert_eq!(Some(String::from("b")), listor.pop_front());
    assert_eq!(Some(String::from("a!")), listor.pop_front());
    assert_eq!(None, listor.pop_front());
}

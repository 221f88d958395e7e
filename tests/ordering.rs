use isize_vec::IsizeVec;

fn pairs<T: Clone>(vector: &mut IsizeVec<T>) -> Vec<(T, isize)> {
    let mut out = Vec::new();
    while let Some(pair) = vector.pop() {
        out.push(pair);
    }
    out.reverse();
    out
}

#[test]
fn non_negative_ties_in_insertion_order() {
    let mut vector = IsizeVec::new();
    vector.insert(1, 100);
    vector.insert(9, 900);
    for value in 0..5 {
        vector.insert(4, value);
    }
    let values: Vec<i32> = vector.iter().cloned().collect();
    assert_eq!(values, vec![100, 0, 1, 2, 3, 4, 900]);
}

#[test]
fn negative_ties_in_reverse_insertion_order() {
    let mut vector = IsizeVec::new();
    vector.insert(-9, 900);
    vector.insert(-1, 100);
    for value in 0..5 {
        vector.insert(-4, value);
    }
    let values: Vec<i32> = vector.iter().cloned().collect();
    assert_eq!(values, vec![900, 4, 3, 2, 1, 0, 100]);
}

#[test]
fn insert_returns_index_and_sorts_keys() {
    let mut vector = IsizeVec::new();
    assert_eq!(vector.insert(5, 'a'), 0);
    assert_eq!(vector.insert(-3, 'b'), 0);
    assert_eq!(vector.insert(5, 'c'), 2);
    assert_eq!(vector.insert(-3, 'd'), 0);
    assert_eq!(vector.insert(0, 'e'), 2);
    assert_eq!(
        pairs(&mut vector),
        vec![('d', -3), ('b', -3), ('e', 0), ('a', 5), ('c', 5)]
    );
}

#[test]
fn first_right_of_max_is_len() {
    let mut vector = IsizeVec::new();
    for key in [3, -7, 0, isize::MAX, isize::MIN, 3, -7] {
        vector.insert(key, ());
    }
    assert_eq!(vector.first_right_of(isize::MAX), vector.len());
    assert_eq!(vector.len(), 7);
    assert_eq!(vector.first_right_of(isize::MIN), 1);
}

#[test]
fn first_right_of_empty_is_zero() {
    let vector: IsizeVec<u8> = IsizeVec::new();
    assert_eq!(vector.first_right_of(0), 0);
    assert_eq!(vector.first_positive(), 0);
    assert!(vector.is_empty());
}

#[test]
fn retain_keeps_keys_with_values() {
    let mut vector = IsizeVec::new();
    vector.insert(-2, 'x');
    vector.insert(-2, 'a');
    vector.insert(0, 'b');
    vector.insert(0, 'x');
    vector.insert(7, 'c');
    vector.retain(|&v| v != 'x');
    assert_eq!(pairs(&mut vector), vec![('a', -2), ('b', 0), ('c', 7)]);
}

#[test]
fn remove_then_insert_restores() {
    let mut vector = IsizeVec::new();
    vector.insert(1, 'a');
    vector.insert(1, 'b');
    vector.insert(1, 'c');
    vector.insert(4, 'd');
    let (value, key) = vector.remove(0);
    assert_eq!((value, key), ('a', 1));
    assert_eq!(vector.insert(key, value), 2);
    assert_eq!(pairs(&mut vector), vec![('b', 1), ('c', 1), ('a', 1), ('d', 4)]);
}

#[test]
fn remove_then_insert_negative() {
    let mut vector = IsizeVec::new();
    vector.insert(-1, 'a');
    vector.insert(-1, 'b');
    vector.insert(-5, 'z');
    let (value, key) = vector.remove(2);
    assert_eq!((value, key), ('a', -1));
    assert_eq!(vector.insert(key, value), 1);
    assert_eq!(pairs(&mut vector), vec![('z', -5), ('a', -1), ('b', -1)]);
}

#[test]
fn extract_then_push_as_new() {
    let mut vector = IsizeVec::new();
    vector.insert(3, 'a');
    vector.insert(-3, 'b');
    assert_eq!(vector.extract(), vec!['b', 'a']);
    assert_eq!(vector.len(), 0);
    assert!(vector.is_empty());
    assert_eq!(vector.push('c'), 0);
    assert_eq!(pairs(&mut vector), vec![('c', isize::MAX)]);
}

#[test]
fn push_appends_with_max_key() {
    let mut vector = IsizeVec::new();
    vector.insert(isize::MAX, 'a');
    assert_eq!(vector.push('b'), 1);
    assert_eq!(vector.insert(isize::MAX, 'c'), 2);
    assert_eq!(vector.insert(10, 'd'), 0);
    assert_eq!(
        pairs(&mut vector),
        vec![('d', 10), ('a', isize::MAX), ('b', isize::MAX), ('c', isize::MAX)]
    );
}

#[test]
fn pop_empty_is_none() {
    let mut vector: IsizeVec<u8> = IsizeVec::new();
    assert_eq!(vector.pop(), None);
    vector.insert(2, 9);
    assert_eq!(vector.pop(), Some((9, 2)));
    assert_eq!(vector.pop(), None);
}

#[test]
fn swap_moves_values_not_keys() {
    let mut vector = IsizeVec::new();
    vector.insert(1, 'a');
    vector.insert(2, 'b');
    vector.insert(3, 'c');
    vector.swap(0, 2);
    assert_eq!(pairs(&mut vector), vec![('c', 1), ('b', 2), ('a', 3)]);
}

#[test]
fn get_and_get_mut() {
    let mut vector = IsizeVec::new();
    vector.insert(1, 10);
    vector.insert(0, 20);
    assert_eq!(vector.get(0), Some(&20));
    assert_eq!(vector.get(1), Some(&10));
    assert_eq!(vector.get(2), None);
    assert_eq!(vector.get_mut(2), None);
    if let Some(value) = vector.get_mut(1) {
        *value = 11;
    }
    assert_eq!(pairs(&mut vector), vec![(20, 0), (11, 1)]);
}

#[test]
fn drain_removes_range_with_keys() {
    let mut vector = IsizeVec::new();
    for key in 0..6 {
        vector.insert(key, key * 10);
    }
    assert_eq!(vector.drain(1..4), vec![10, 20, 30]);
    assert_eq!(pairs(&mut vector), vec![(0, 0), (40, 4), (50, 5)]);
}

#[test]
fn iter_mut_changes_values_in_place() {
    let mut vector = IsizeVec::new();
    vector.insert(2, 1);
    vector.insert(1, 2);
    for value in vector.iter_mut() {
        *value *= 10;
    }
    assert_eq!(pairs(&mut vector), vec![(20, 1), (10, 2)]);
}

#[test]
fn default_is_empty() {
    let vector: IsizeVec<char> = IsizeVec::default();
    assert_eq!(vector.len(), 0);
    assert!(vector.is_empty());
}

#[test]
fn into_iter_yields_values_in_order() {
    let mut vector = IsizeVec::new();
    vector.insert(2, 'b');
    vector.insert(1, 'a');
    vector.insert(3, 'c');
    let mut seen = Vec::new();
    for value in &vector {
        seen.push(*value);
    }
    assert_eq!(seen, vec!['a', 'b', 'c']);
    for value in &mut vector {
        *value = value.to_ascii_uppercase();
    }
    let owned: Vec<char> = vector.into_iter().collect();
    assert_eq!(owned, vec!['A', 'B', 'C']);
}

#[test]
fn index_and_index_mut() {
    let mut vector = IsizeVec::new();
    vector.insert(3, 'c');
    vector.insert(-3, 'a');
    assert_eq!(*vector.index(0), 'a');
    assert_eq!(*vector.index(1), 'c');
    *vector.index_mut(1) = 'z';
    assert_eq!(pairs(&mut vector), vec![('a', -3), ('z', 3)]);
}

#[test]
fn swap_entries_within_equal_keys() {
    let mut vector = IsizeVec::new();
    vector.insert(-1, 'x');
    vector.insert(2, 'a');
    vector.insert(2, 'b');
    vector.insert(2, 'c');
    vector.swap_entries(1, 3);
    assert_eq!(pairs(&mut vector), vec![('x', -1), ('c', 2), ('b', 2), ('a', 2)]);
}

#[test]
fn retain_counts_survivors() {
    let mut vector = IsizeVec::new();
    for key in -3..4 {
        vector.insert(key, key);
    }
    vector.retain(|&v| v % 2 == 0);
    assert_eq!(vector.len(), 3);
    assert_eq!(pairs(&mut vector), vec![(-2, -2), (0, 0), (2, 2)]);
}

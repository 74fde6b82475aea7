use advent_of_code::helpers::aa_tree::NodeIndex;
use advent_of_code::helpers::shuffle_tree::{ShuffleError, ShuffleTree};

fn ten() -> ShuffleTree<u8, 48> {
    match ShuffleTree::<u8, 48>::from_iter((0..10).collect()) {
        Ok(list) => list,
        Err(_) => panic!("ten elements fit"),
    }
}

fn values(list: &ShuffleTree<u8, 48>) -> Vec<u8> {
    list.ordered_values().into_iter().copied().collect()
}

#[test]
fn test_traverse_forward_slightly() {
    let list = ten();
    let keys: Vec<NodeIndex> = list.node_indexes();
    let key3 = keys[3];
    assert_eq!(*list.value_at(key3), 3);
    assert_eq!(*list.value_at(list.traverse_by_wrapping(key3, -3)), 0);
    assert_eq!(*list.value_at(list.traverse_by_wrapping(key3, -2)), 1);
    assert_eq!(*list.value_at(list.traverse_by_wrapping(key3, -1)), 2);
    assert_eq!(*list.value_at(list.traverse_by_wrapping(key3, 0)), 3);
    assert_eq!(*list.value_at(list.traverse_by_wrapping(key3, 1)), 4);
    assert_eq!(*list.value_at(list.traverse_by_wrapping(key3, 2)), 5);
    assert_eq!(*list.value_at(list.traverse_by_wrapping(key3, 3)), 6);
    assert_eq!(*list.value_at(list.traverse_by_wrapping(key3, 4)), 7);
}

#[test]
fn test_traverse_forward_wrapping() {
    let list = ten();
    let keys: Vec<NodeIndex> = list.node_indexes();
    let key7 = keys[7];
    assert_eq!(*list.value_at(key7), 7);
    assert_eq!(*list.value_at(list.traverse_by_wrapping(key7, 9)), 6);
    assert_eq!(*list.value_at(list.traverse_by_wrapping(key7, 10)), 7);
    assert_eq!(*list.value_at(list.traverse_by_wrapping(key7, 11)), 8);
}

#[test]
fn test_moves_value_nowhere() {
    let mut list = ten();
    let third_node = list.node_at_position(3).unwrap();
    list.move_by_wrapping(third_node, 0);
    assert_eq!(values(&list), vec![0, 1, 2, 3, 4, 5, 6, 7, 8, 9]);
}

#[test]
fn test_moves_value_forward() {
    let mut list = ten();
    let fifth_node = list.node_at_position(5).unwrap();
    list.move_by_wrapping(fifth_node, 1);
    assert_eq!(values(&list), vec![0, 1, 2, 3, 4, 6, 5, 7, 8, 9]);
}

#[test]
fn test_moves_value_backward_one() {
    let mut list = ten();
    let eighth_node = list.node_at_position(8).unwrap();
    list.move_by_wrapping(eighth_node, -1);
    assert_eq!(values(&list), vec![0, 1, 2, 3, 4, 5, 6, 8, 7, 9]);
}

#[test]
fn test_moves_value_backward() {
    let mut list = ten();
    let eighth_node = list.node_at_position(8).unwrap();
    list.move_by_wrapping(eighth_node, -6);
    assert_eq!(values(&list), vec![0, 1, 8, 2, 3, 4, 5, 6, 7, 9]);
}

#[test]
fn test_moves_value_forward_wrapping() {
    let mut list = ten();
    let fifth_node = list.node_at_position(5).unwrap();
    list.move_by_wrapping(fifth_node, 16);
    assert_eq!(values(&list), vec![0, 1, 2, 5, 3, 4, 6, 7, 8, 9]);
}

#[test]
fn test_moves_value_backward_wrapping() {
    let mut list = ten();
    let seventh_node = list.node_at_position(7).unwrap();
    list.move_by_wrapping(seventh_node, -8);
    assert_eq!(values(&list), vec![0, 1, 2, 3, 4, 5, 6, 8, 7, 9]);
}

#[test]
fn test_moves_value_wrap_around_front() {
    let mut list = ten();
    let seventh_node = list.node_at_position(7).unwrap();
    list.move_by_wrapping(seventh_node, -7);
    assert_eq!(values(&list), vec![0, 1, 2, 3, 4, 5, 6, 8, 9, 7]);
}

#[test]
fn try_move_reports_a_stale_handle() {
    let mut list = ten();
    assert_eq!(list.try_move_by_wrapping(NodeIndex(1000), 1), Err(ShuffleError::InvalidHandle));
    assert_eq!(values(&list), vec![0, 1, 2, 3, 4, 5, 6, 7, 8, 9]);
}

#[test]
fn try_move_needs_a_second_element() {
    let mut list = ShuffleTree::<u8, 48>::from_iter(vec![7]).unwrap();
    let only = list.node_at_position(0).unwrap();
    assert_eq!(list.try_move_by_wrapping(only, 3), Err(ShuffleError::TooFewElements));
    assert_eq!(list.ordered_values().into_iter().copied().collect::<Vec<u8>>(), vec![7]);
}

#[test]
fn an_empty_container_has_no_positions() {
    let list = ShuffleTree::<u8, 48>::from_iter(vec![]).unwrap();
    assert_eq!(list.total_weight(), 0);
    assert_eq!(list.node_at_position(0), None);
    assert!(list.node_indexes().is_empty());
    assert!(list.ordered_values().is_empty());
}

#[test]
fn positions_beyond_the_end_are_not_found() {
    let list = ten();
    assert_eq!(list.node_at_position(10), None);
    assert_eq!(list.node_at_position(usize::MAX), None);
    assert_eq!(*list.value_at(list.node_at_position(9).unwrap()), 9);
}

#[test]
fn loading_fails_where_the_keys_do_not_fit() {
    assert_eq!(
        ShuffleTree::<u8, 64>::from_iter(vec![1]).err(),
        Some(ShuffleError::KeySpaceExhausted)
    );
    assert_eq!(
        ShuffleTree::<u8, 63>::from_iter(vec![1, 2]).err(),
        Some(ShuffleError::KeySpaceExhausted)
    );
    assert!(ShuffleTree::<u8, 63>::from_iter(vec![1]).is_ok());
    assert!(ShuffleTree::<u8, 64>::from_iter(vec![]).is_err());
}

#[test]
fn initial_keys_are_one_gap_apart() {
    let list = ten();
    let handles = list.node_indexes();
    for (i, handle) in handles.iter().enumerate() {
        assert_eq!(list.key_at(*handle), (i + 1) << 48);
        assert_eq!(list.position_of(*handle), i);
        assert!(list.contains_handle(*handle));
    }
    assert!(!list.contains_handle(NodeIndex(0)));
    assert!(!list.contains_handle(NodeIndex(11)));
}

#[test]
fn a_moved_element_gets_the_key_halfway_between_its_neighbours() {
    let mut list = ten();
    let fifth = list.node_at_position(5).unwrap();
    list.move_by_wrapping(fifth, 1);
    // It now stands between the elements loaded at 6 and 7.
    assert_eq!(list.position_of(fifth), 6);
    assert_eq!(list.key_at(fifth), (7 << 48) + (1 << 47));
    assert_eq!(*list.value_at(fifth), 5);
}

#[test]
fn a_move_to_the_front_goes_behind_the_last_element() {
    let mut list = ten();
    let seventh = list.node_at_position(7).unwrap();
    list.move_by_wrapping(seventh, -7);
    assert_eq!(list.position_of(seventh), 9);
    assert_eq!(list.key_at(seventh), 11 << 48);
}

#[test]
fn handles_survive_moves() {
    let mut list = ten();
    let handles = list.node_indexes();
    for (value, handle) in handles.iter().enumerate() {
        list.move_by_wrapping(*handle, value as isize);
        assert_eq!(*list.value_at(*handle), value as u8);
    }
    for (value, handle) in handles.iter().enumerate() {
        assert_eq!(*list.value_at(*handle), value as u8);
    }
    assert_eq!(list.total_weight(), 10);
}

#[test]
fn key_space_between_two_neighbours_runs_out() {
    // With one interleaving bit the keys are 2, 4, 6.
    let mut list = ShuffleTree::<u8, 1>::from_iter(vec![0, 1, 2]).unwrap();
    let handles = list.node_indexes();
    // The last element moves between the first two and gets key 3.
    assert!(list.can_move_by_wrapping(handles[2], 1));
    assert_eq!(list.try_move_by_wrapping(handles[2], 1), Ok(()));
    assert_eq!(values_of(&list), vec![0, 2, 1]);
    assert_eq!(list.key_at(handles[2]), 3);
    // Nothing is left between 3 and 4.
    assert!(!list.can_move_by_wrapping(handles[0], 1));
    assert_eq!(
        list.try_move_by_wrapping(handles[0], 1),
        Err(ShuffleError::KeySpaceExhausted)
    );
    assert_eq!(values_of(&list), vec![0, 2, 1]);
    assert_eq!(list.key_at(handles[0]), 2);
}

fn values_of<const B: usize>(list: &ShuffleTree<u8, B>) -> Vec<u8> {
    list.ordered_values().into_iter().copied().collect()
}

#[test]
fn appending_and_prepending_extend_by_one_gap() {
    let mut list = ShuffleTree::<u8, 4>::from_iter(vec![1, 2]).unwrap();
    assert_eq!(list.try_append(3), Ok(()));
    assert_eq!(list.try_prepend(0), Ok(()));
    assert_eq!(values_of(&list), vec![0, 1, 2, 3]);
    assert_eq!(list.total_weight(), 4);
    let handles = list.node_indexes();
    let keys: Vec<usize> = handles.iter().map(|h| list.key_at(*h)).collect();
    assert_eq!(keys, vec![0, 16, 32, 48]);
    // Below zero there is no key.
    assert_eq!(list.try_prepend(9), Err(ShuffleError::KeySpaceExhausted));
    assert_eq!(values_of(&list), vec![0, 1, 2, 3]);
    list.append(4);
    assert_eq!(values_of(&list), vec![0, 1, 2, 3, 4]);
}

#[test]
fn appending_fails_at_the_top_of_the_key_space() {
    let mut list = ShuffleTree::<u8, 63>::from_iter(vec![1]).unwrap();
    assert_eq!(list.try_append(2), Err(ShuffleError::KeySpaceExhausted));
    assert_eq!(list.try_prepend(0), Ok(()));
    assert_eq!(values_of(&list), vec![0, 1]);
}

#[test]
fn nothing_is_added_to_an_empty_container() {
    let mut list = ShuffleTree::<u8, 48>::from_iter(vec![]).unwrap();
    assert_eq!(list.try_append(1), Err(ShuffleError::TooFewElements));
    assert_eq!(list.try_prepend(1), Err(ShuffleError::TooFewElements));
    assert_eq!(list.total_weight(), 0);
}

#[test]
fn ranks_wrap_around() {
    let list = ten();
    for rank in 0..10usize {
        let at = list.node_at_position_wrapping(rank);
        assert_eq!(*list.value_at(at), rank as u8);
        for turns in 1..4usize {
            assert_eq!(list.node_at_position_wrapping(rank + turns * 10), at);
        }
    }
}

#[test]
fn moving_back_restores_the_circle() {
    for start in 0..10usize {
        for by in [-23isize, -9, -4, -1, 0, 1, 5, 9, 17] {
            let mut list = ten();
            let handle = list.node_at_position(start).unwrap();
            list.move_by_wrapping(handle, by);
            assert_eq!(list.total_weight(), 10);
            list.move_by_wrapping(handle, -by);
            let mut expected: Vec<u8> = (0..10).collect();
            if start == 0 {
                expected.rotate_left(1);
            }
            assert_eq!(values(&list), expected);
        }
    }
}

#[test]
fn moving_by_full_turns_changes_nothing() {
    let mut list = ten();
    let third = list.node_at_position(3).unwrap();
    list.move_by_wrapping(third, 9);
    assert_eq!(values(&list), vec![0, 1, 2, 3, 4, 5, 6, 7, 8, 9]);
    list.move_by_wrapping(third, -27);
    assert_eq!(values(&list), vec![0, 1, 2, 3, 4, 5, 6, 7, 8, 9]);
}

#[test]
fn keys_ascend_along_the_sequence_after_moves() {
    let mut list = ten();
    let handles = list.node_indexes();
    for (i, handle) in handles.iter().enumerate() {
        list.move_by_wrapping(*handle, (i as isize) * 3 - 11);
    }
    let order = list.node_indexes();
    assert_eq!(order.len(), 10);
    for pair in order.windows(2) {
        assert!(list.key_at(pair[0]) < list.key_at(pair[1]));
    }
    let by_handle: Vec<u8> = order.iter().map(|h| *list.value_at(*h)).collect();
    assert_eq!(by_handle, values(&list));
    for (rank, handle) in order.iter().enumerate() {
        assert_eq!(list.position_of(*handle), rank);
        assert_eq!(list.node_at_position(rank), Some(*handle));
    }
}

#[test]
fn subtree_weights_count_the_nodes_below() {
    let mut list = ten();
    let handles = list.node_indexes();
    for (i, handle) in handles.iter().enumerate() {
        list.move_by_wrapping(*handle, 7 - (i as isize) * 2);
    }
    let mut roots = 0;
    for handle in list.node_indexes() {
        let left = list.child(handle, 0);
        let right = list.child(handle, 1);
        let below = |child: Option<NodeIndex>| child.map_or(0, |c| list.subtree_weight(c));
        assert_eq!(list.subtree_weight(handle), 1 + below(left) + below(right));
        assert_eq!(list.child(handle, 2), None);
        for child in [left, right].into_iter().flatten() {
            assert_eq!(list.parent(child), Some(handle));
        }
        match list.parent(handle) {
            None => {
                roots += 1;
                assert_eq!(list.subtree_weight(handle), list.total_weight());
            }
            Some(parent) => {
                assert!(
                    list.child(parent, 0) == Some(handle) || list.child(parent, 1) == Some(handle)
                );
            }
        }
    }
    assert_eq!(roots, 1);
}

#[test]
fn neighbours_in_sequence_order() {
    let list = ten();
    let handles = list.node_indexes();
    assert_eq!(list.predecessor(handles[0]), None);
    assert_eq!(list.successor(handles[9]), None);
    for rank in 0..9 {
        assert_eq!(list.successor(handles[rank]), Some(handles[rank + 1]));
        assert_eq!(list.predecessor(handles[rank + 1]), Some(handles[rank]));
    }
}

#[test]
fn traversal_agrees_with_ranks() {
    let list = ten();
    let handles = list.node_indexes();
    for from in 0..10isize {
        for by in -25..25isize {
            let to = list.traverse_by_wrapping(handles[from as usize], by);
            assert_eq!(list.position_of(to) as isize, (from + by).rem_euclid(10));
        }
    }
}

#[test]
fn mixing_replays_moves_against_the_elements_as_loaded() {
    let numbers: Vec<isize> = vec![1, 2, -3, 3, -2, 0, 4];
    let mut list = ShuffleTree::<isize, 48>::from_iter(numbers).unwrap();
    let handles = list.node_indexes();
    for handle in handles.iter() {
        let by = *list.value_at(*handle);
        list.move_by_wrapping(*handle, by);
    }
    let mixed: Vec<isize> = list.ordered_values().into_iter().copied().collect();
    let zero = mixed.iter().position(|v| *v == 0).unwrap();
    let circle: Vec<isize> = (0..7).map(|i| mixed[(zero + i) % 7]).collect();
    assert_eq!(circle, vec![0, 3, -2, 1, 2, -3, 4]);
    let at = |n: usize| *list.value_at(list.node_at_position_wrapping(zero + n));
    assert_eq!(at(1000), 4);
    assert_eq!(at(2000), -3);
    assert_eq!(at(3000), 2);
}

use rle_vec::{RleVec, Run};
use std::io::Write;

fn runs_of<T: Clone>(rle: &RleVec<T>) -> Vec<(usize, T)> {
    let mut it = rle.runs();
    let mut out = Vec::new();
    while let Some(run) = it.next() {
        out.push((run.len, run.value.clone()));
    }
    out
}

#[test]
fn shortest_coding_does_not_depend_on_history() {
    let values = vec![4, 4, 1, 1, 1, 7, 4, 4];
    let from_slice = RleVec::from(&values[..]);
    let from_iter = RleVec::from_iter(values.clone());
    let mut pushed = RleVec::new();
    for v in &values {
        pushed.push(*v);
    }
    let mut edited = RleVec::from(&[9, 9, 9, 9, 9, 9, 9, 9][..]);
    for (i, v) in values.iter().enumerate() {
        edited.set(i, *v);
    }
    let expected = vec![(2, 4), (3, 1), (1, 7), (2, 4)];
    assert_eq!(runs_of(&from_slice), expected);
    assert_eq!(runs_of(&from_iter), expected);
    assert_eq!(runs_of(&pushed), expected);
    assert_eq!(runs_of(&edited), expected);
    assert_eq!(from_slice, from_iter);
    assert_eq!(from_slice, edited);
}

#[test]
fn round_trip_through_vec() {
    let values = vec![0u8, 0, 3, 3, 3, 0, 255];
    let rle = RleVec::from(&values[..]);
    assert_eq!(rle.to_vec(), values);
    let back: Vec<u8> = rle.into();
    assert_eq!(back, values);
}

#[test]
fn remove_undoes_insert() {
    let values = vec![1, 1, 2, 2, 2, 3];
    let mut rle = RleVec::from(&values[..]);
    for index in 0..=values.len() {
        rle.insert(index, 9);
        assert_eq!(rle[index], 9);
        assert_eq!(rle.remove(index), 9);
        assert_eq!(rle.to_vec(), values);
    }
}

#[test]
fn remove_joins_equal_neighbours() {
    let mut rle = RleVec::from(&[1, 2, 1][..]);
    assert_eq!(rle.remove(1), 2);
    assert_eq!(rle.to_vec(), vec![1, 1]);
    assert_eq!(rle.runs_len(), 1);
    assert_eq!(rle, RleVec::from(&[1, 1][..]));

    let mut rle = RleVec::from(&[1, 2, 1, 3][..]);
    assert_eq!(rle.remove(1), 2);
    assert_eq!(rle.to_vec(), vec![1, 1, 3]);
    assert_eq!(rle.runs_len(), 2);
}

#[test]
fn remove_at_the_edges() {
    let mut rle = RleVec::from(&[5, 6][..]);
    assert_eq!(rle.remove(0), 5);
    assert_eq!(rle.to_vec(), vec![6]);

    let mut rle = RleVec::from(&[1, 2, 3, 4][..]);
    assert_eq!(rle.remove(3), 4);
    assert_eq!(rle.to_vec(), vec![1, 2, 3]);
    assert_eq!(rle.runs_len(), 3);

    let mut rle = RleVec::from(&[7, 7, 7][..]);
    assert_eq!(rle.remove(2), 7);
    assert_eq!(rle.remove(0), 7);
    assert_eq!(rle.remove(0), 7);
    assert!(rle.is_empty());
    assert_eq!(rle.runs_len(), 0);
}

#[test]
fn truncate_at_a_run_boundary() {
    let mut rle = RleVec::new();
    rle.push_n(3, 1);
    rle.push_n(3, 2);
    rle.truncate(3);
    assert_eq!(rle.to_vec(), vec![1, 1, 1]);
    assert_eq!(rle.runs_len(), 1);
    assert_eq!(rle[2], 1);
    rle.push(2);
    assert_eq!(rle.ends(), vec![2, 3]);
    rle.truncate(4);
    assert_eq!(rle.len(), 4);
    rle.truncate(0);
    assert!(rle.is_empty());
}

#[test]
fn drain_edge_cases() {
    let mut rle = RleVec::from(&[1, 1, 1, 1][..]);
    rle.drain(1..3);
    assert_eq!(rle.to_vec(), vec![1, 1]);
    assert_eq!(rle.runs_len(), 1);

    let mut rle = RleVec::from(&[1, 1, 2, 3, 3][..]);
    rle.drain(0..5);
    assert!(rle.is_empty());
    assert_eq!(rle.runs_len(), 0);

    let mut rle = RleVec::from(&[1, 1, 2, 3, 3][..]);
    rle.drain(2..2);
    assert_eq!(rle.to_vec(), vec![1, 1, 2, 3, 3]);

    let mut rle = RleVec::from(&[1, 1, 2, 3, 3][..]);
    rle.drain(0..3);
    assert_eq!(rle.to_vec(), vec![3, 3]);
    assert_eq!(rle.starts(), vec![0]);

    let mut rle = RleVec::from(&[1, 1, 2, 3, 3][..]);
    rle.drain(3..5);
    assert_eq!(rle.to_vec(), vec![1, 1, 2]);
    assert_eq!(rle.ends(), vec![1, 2]);

    let mut rle = RleVec::from(&[1, 2, 1][..]);
    rle.drain(1..2);
    assert_eq!(rle.to_vec(), vec![1, 1]);
    assert_eq!(rle.runs_len(), 2);
}

#[test]
fn set_to_the_same_value_keeps_the_runs() {
    let mut rle = RleVec::from(&[3, 3, 4][..]);
    rle.set(1, 3);
    assert_eq!(runs_of(&rle), vec![(2, 3), (1, 4)]);
    rle.set(1, 4);
    assert_eq!(runs_of(&rle), vec![(1, 3), (2, 4)]);
    rle.set(0, 4);
    assert_eq!(runs_of(&rle), vec![(3, 4)]);
}

#[test]
fn insert_in_every_place() {
    let mut rle = RleVec::from(&[2, 2, 2][..]);
    rle.insert(1, 2);
    assert_eq!(runs_of(&rle), vec![(4, 2)]);
    rle.insert(2, 5);
    assert_eq!(runs_of(&rle), vec![(2, 2), (1, 5), (2, 2)]);
    rle.insert(2, 2);
    assert_eq!(runs_of(&rle), vec![(3, 2), (1, 5), (2, 2)]);
    rle.insert(0, 8);
    assert_eq!(rle.to_vec(), vec![8, 2, 2, 2, 5, 2, 2]);
    rle.insert(7, 2);
    assert_eq!(rle.to_vec(), vec![8, 2, 2, 2, 5, 2, 2, 2]);
    assert_eq!(rle.runs_len(), 4);
}

#[test]
fn iterator_front_and_back_meet() {
    let rle = RleVec::from(&[1, 1, 2, 3, 3, 3][..]);
    let mut it = rle.iter();
    assert_eq!(it.size_hint(), (6, Some(6)));
    assert_eq!(it.next_back(), Some(&3));
    assert_eq!(it.nth(1), Some(&1));
    assert_eq!(it.size_hint(), (3, Some(3)));
    assert_eq!(it.nth(5), None);
    assert_eq!(it.next(), None);
    assert_eq!(it.next_back(), None);

    let mut it = rle.iter();
    it.next_back();
    it.next_back();
    assert_eq!(it.size_hint().0, 4);
    assert_eq!(it.last(), Some(&3));

    let empty = RleVec::<i32>::new();
    assert_eq!(empty.iter().nth(0), None);
    assert_eq!(empty.iter().last(), None);
    assert_eq!(empty.iter().count(), 0);
}

#[test]
fn run_iterator_bounds() {
    let rle = RleVec::from(&[1, 1, 2, 3, 3, 3][..]);
    let mut runs = rle.runs();
    assert_eq!(runs.size_hint(), (3, Some(3)));
    assert_eq!(runs.nth(1), Some(Run { len: 1, value: &2 }));
    assert_eq!(runs.size_hint(), (1, Some(1)));
    assert_eq!(runs.nth(usize::MAX), None);
    assert_eq!(runs.next(), None);
    assert_eq!(RleVec::<u8>::new().runs().last(), None);
}

#[test]
fn runs_lengths_match_starts_and_ends() {
    let rle = RleVec::from(&[5, 5, 5, 1, 2, 2, 9][..]);
    let starts = rle.starts();
    let ends = rle.ends();
    let lens: Vec<usize> = runs_of(&rle).iter().map(|r| r.0).collect();
    assert_eq!(lens, vec![3, 1, 2, 1]);
    for k in 0..lens.len() {
        assert_eq!(ends[k] + 1 - starts[k], lens[k]);
        if k + 1 < lens.len() {
            assert_eq!(ends[k] + 1, starts[k + 1]);
        }
    }
    assert_eq!(ends[ends.len() - 1] + 1, rle.len());
}

#[test]
fn extending_with_values_and_runs() {
    let mut rle = RleVec::from(&[1, 1][..]);
    rle.extend(vec![1, 1, 2, 2, 1]);
    assert_eq!(runs_of(&rle), vec![(4, 1), (2, 2), (1, 1)]);
    rle.extend(Vec::new());
    assert_eq!(rle.len(), 7);
    rle.extend_runs(vec![Run { len: 2, value: 1 }, Run { len: 0, value: 8 }, Run { len: 1, value: 3 }]);
    assert_eq!(runs_of(&rle), vec![(4, 1), (2, 2), (3, 1), (1, 3)]);
    let built = RleVec::from_runs(vec![Run { len: 0, value: 1 }, Run { len: 2, value: 1 }, Run { len: 2, value: 1 }]);
    assert_eq!(runs_of(&built), vec![(4, 1)]);
}

#[test]
fn clone_default_and_capacity() {
    let rle = RleVec::from(&[String::from("a"), String::from("a"), String::from("b")][..]);
    let copy = rle.clone();
    assert_eq!(copy, rle);
    assert_eq!(runs_of(&copy), vec![(2, String::from("a")), (1, String::from("b"))]);
    let empty: RleVec<String> = RleVec::default();
    assert!(empty.is_empty());
    let with_room: RleVec<String> = RleVec::with_capacity(16);
    assert_eq!(with_room.len(), 0);
    assert_eq!(with_room.runs_len(), 0);
}

#[test]
fn values_that_are_not_copy() {
    let mut rle = RleVec::from(&[String::from("x"), String::from("y"), String::from("y")][..]);
    rle.set(0, String::from("y"));
    assert_eq!(rle.runs_len(), 1);
    assert_eq!(rle.remove(1), String::from("y"));
    rle.insert(1, String::from("z"));
    assert_eq!(rle.to_vec(), vec![String::from("y"), String::from("z"), String::from("y")]);
    assert_eq!(rle.last(), Some(&String::from("y")));
    assert_eq!(rle.last_run(), Some(Run { len: 1, value: &String::from("y") }));
}

#[test]
fn write_appends_bytes() {
    let mut rle = RleVec::new();
    assert_eq!(rle.write(&[7, 7, 8]).unwrap(), 3);
    rle.write_all(&[8, 8]).unwrap();
    rle.flush().unwrap();
    assert_eq!(rle.to_vec(), vec![7, 7, 8, 8, 8]);
    assert_eq!(rle.runs_len(), 2);
    assert_eq!(rle.write(&[]).unwrap(), 0);
    assert_eq!(rle.len(), 5);
}

#[test]
fn push_n_of_nothing_changes_nothing() {
    let mut rle = RleVec::from(&[1][..]);
    rle.push_n(0, 2);
    assert_eq!(runs_of(&rle), vec![(1, 1)]);
    rle.push_n(4, 1);
    assert_eq!(runs_of(&rle), vec![(5, 1)]);
    assert_eq!(rle.last_run(), Some(Run { len: 5, value: &1 }));
}

#[test]
fn truncate_undoes_appending() {
    let values = vec![3, 3, 4];
    let mut rle = RleVec::from(&values[..]);
    rle.push_n(5, 4);
    rle.extend(vec![4, 9, 9]);
    rle.truncate(values.len());
    assert_eq!(rle.to_vec(), values);
    assert_eq!(runs_of(&rle), vec![(2, 3), (1, 4)]);
}

#[test]
fn drain_undoes_insert() {
    let values = vec![6, 6, 2, 6];
    for index in 0..=values.len() {
        let mut rle = RleVec::from(&values[..]);
        rle.insert(index, 1);
        rle.drain(index..index + 1);
        assert_eq!(rle.to_vec(), values);
    }
}

#[test]
fn setting_twice_keeps_the_second_value() {
    let mut rle = RleVec::from(&[1, 2, 3][..]);
    rle.set(1, 7);
    rle.set(1, 8);
    assert_eq!(rle.to_vec(), vec![1, 8, 3]);
    let before = rle.clone();
    rle.set(2, 3);
    assert_eq!(rle, before);
}

#[test]
fn remove_undoes_insert_on_the_runs() {
    let original = RleVec::from(&[1, 1][..]);
    let mut rle = original.clone();
    rle.insert(1, 2);
    assert_eq!(runs_of(&rle), vec![(1, 1), (1, 2), (1, 1)]);
    assert_eq!(rle.remove(1), 2);
    assert_eq!(rle, original);
    assert_eq!(runs_of(&rle), vec![(2, 1)]);
}

#[test]
fn drain_inside_one_run_keeps_one_run() {
    let mut rle = RleVec::from(&[1, 1, 1, 1][..]);
    rle.drain(1..3);
    assert_eq!(rle.to_vec(), vec![1, 1]);
    assert_eq!(rle.len(), 2);
    assert_eq!(rle.runs_len(), 1);

    let mut rle = RleVec::from(&[0, 5, 5, 5, 5, 5, 9][..]);
    rle.drain(2..5);
    assert_eq!(runs_of(&rle), vec![(1, 0), (2, 5), (1, 9)]);
}

#[test]
fn clear_then_reuse() {
    let mut rle = RleVec::from(&[1, 2, 2, 3][..]);
    rle.clear();
    assert!(rle.is_empty());
    assert_eq!(rle.runs_len(), 0);
    rle.push(4);
    rle.push(4);
    assert_eq!(runs_of(&rle), vec![(2, 4)]);
}

#[test]
fn set_to_the_value_already_there_changes_nothing() {
    let original = RleVec::from(&[1, 1, 1, 1, 2, 2, 2, 3, 3, 4, 5][..]);
    let mut rle = original.clone();
    rle.set(0, 1);
    rle.set(6, 2);
    rle.set(9, 4);
    assert_eq!(rle, original);
    assert_eq!(rle.runs_len(), 5);
}

#[test]
fn next_hands_out_every_value_then_none() {
    let rle = RleVec::from(&[3, 3, 4, 4, 4, 5][..]);
    let mut it = rle.iter();
    let mut out = Vec::new();
    while let Some(v) = it.next() {
        out.push(*v);
    }
    assert_eq!(out, rle.to_vec());
    assert_eq!(it.next(), None);
    assert_eq!(it.next(), None);
}

#[test]
fn next_back_hands_out_the_values_reversed() {
    let rle = RleVec::from(&[3, 3, 4, 4, 4, 5][..]);
    let mut it = rle.iter();
    let mut out = Vec::new();
    while let Some(v) = it.next_back() {
        out.push(*v);
    }
    assert_eq!(out, vec![5, 4, 4, 4, 3, 3]);
    assert_eq!(it.next_back(), None);
}

#[test]
fn runs_hand_out_every_run_then_none() {
    let rle = RleVec::from(&[3, 3, 4, 4, 4, 5][..]);
    let mut it = rle.runs();
    let mut total = 0;
    let mut values = Vec::new();
    let mut count = 0;
    while let Some(run) = it.next() {
        assert!(run.len >= 1);
        total += run.len;
        for _ in 0..run.len {
            values.push(*run.value);
        }
        count += 1;
    }
    assert_eq!(count, rle.runs_len());
    assert_eq!(total, rle.len());
    assert_eq!(values, rle.to_vec());
    assert!(it.next().is_none());
}

#[test]
fn drain_leaves_equal_neighbours_apart() {
    let mut rle = RleVec::from(&[1, 2, 1][..]);
    rle.drain(1..2);
    assert_eq!(rle.to_vec(), vec![1, 1]);
    assert_eq!(runs_of(&rle), vec![(1, 1), (1, 1)]);

    let mut rle = RleVec::from(&[1, 2, 3, 4][..]);
    rle.drain(1..2);
    assert_eq!(runs_of(&rle), vec![(1, 1), (1, 3), (1, 4)]);

    let mut rle = RleVec::from(&[5, 5, 6, 6, 7, 7][..]);
    rle.drain(1..5);
    assert_eq!(runs_of(&rle), vec![(1, 5), (1, 7)]);
}

#[test]
fn edits_on_runs_with_equal_neighbours() {
    let mut split = RleVec::from(&[1, 2, 1][..]);
    split.drain(1..2);
    assert_eq!(runs_of(&split), vec![(1, 1), (1, 1)]);

    let mut rle = split.clone();
    rle.set(1, 1);
    assert_eq!(runs_of(&rle), vec![(1, 1), (1, 1)]);
    rle.set(1, 3);
    assert_eq!(runs_of(&rle), vec![(1, 1), (1, 3)]);

    let mut rle = split.clone();
    rle.insert(1, 1);
    assert_eq!(runs_of(&rle), vec![(1, 1), (2, 1)]);

    let mut rle = split.clone();
    assert_eq!(rle.remove(0), 1);
    assert_eq!(runs_of(&rle), vec![(1, 1)]);

    let mut rle = split.clone();
    rle.truncate(1);
    assert_eq!(runs_of(&rle), vec![(1, 1)]);

    let mut rle = split.clone();
    rle.push(1);
    assert_eq!(runs_of(&rle), vec![(1, 1), (2, 1)]);

    let mut rle = split.clone();
    rle.extend(vec![1, 2, 2]);
    assert_eq!(runs_of(&rle), vec![(1, 1), (2, 1), (2, 2)]);

    let mut rle = split.clone();
    rle.extend_runs(vec![Run { len: 2, value: 1 }, Run { len: 0, value: 4 }, Run { len: 1, value: 2 }]);
    assert_eq!(runs_of(&rle), vec![(1, 1), (3, 1), (1, 2)]);
}

#[test]
fn truncate_at_a_run_boundary_keeps_no_empty_run() {
    let mut rle = RleVec::from(&[1, 1, 2, 2][..]);
    rle.truncate(2);
    assert_eq!(runs_of(&rle), vec![(2, 1)]);
    assert_eq!(rle.last(), Some(&1));
}

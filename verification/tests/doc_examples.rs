use rle_vec::{RleVec, Run};

#[test]
fn struct_example() {
    let mut rle = RleVec::new();
    rle.push(10);
    rle.push(10);
    rle.push(11);
    assert_eq!(rle[1], 10);
    assert_eq!(rle[2], 11);
    rle.insert(1, 10);
    assert_eq!(rle.runs_len(), 2);
    rle.set(0, 1);
    assert_eq!(rle.runs_len(), 3);
}

#[test]
fn collect_example() {
    let v = vec![0, 0, 0, 1, 1, 1, 1, 2, 2, 3, 4, 5, 4, 4, 4];
    let rle = RleVec::from_iter(v);
    assert_eq!(rle.len(), 15);
    assert_eq!(rle.runs_len(), 7);
    assert_eq!(rle.iter().nth(10), Some(&4));
}

#[test]
fn set_and_insert_example() {
    let v = vec![0, 0, 0, 1, 1, 1, 1, 2, 2, 3];
    let mut rle = RleVec::from_iter(v);
    rle.set(1, 2);
    rle.insert(4, 4);
    assert_eq!(rle.to_vec(), vec![0, 2, 0, 1, 4, 1, 1, 1, 2, 2, 3]);
}

#[test]
fn index_example() {
    let rle = RleVec::from_iter(vec![0, 2, 4, 6]);
    assert_eq!(rle[1], 2);
}

#[test]
fn run_example() {
    let rle = RleVec::from(&[1, 1, 1, 1, 2, 2, 3][..]);
    let mut iterator = rle.runs();
    assert_eq!(iterator.next(), Some(Run { len: 4, value: &1 }));
    assert_eq!(iterator.next(), Some(Run { len: 2, value: &2 }));
    assert_eq!(iterator.next(), Some(Run { len: 1, value: &3 }));
    assert_eq!(iterator.next(), None);
}

#[test]
fn with_capacity_example() {
    let mut rle = RleVec::with_capacity(10);
    assert_eq!(rle.len(), 0);
    for i in 0..10 {
        rle.push(i);
    }
    assert_eq!(rle.len(), 10);
    assert_eq!(rle.runs_len(), 10);
    rle.push(10);
    rle.push(11);
    assert_eq!(rle.len(), 12);
}

#[test]
fn len_and_empty_examples() {
    let mut rle = RleVec::new();
    assert!(rle.is_empty());
    rle.push(1);
    assert!(!rle.is_empty());
    rle.push(1);
    rle.push(2);
    assert_eq!(rle.len(), 3);
}

#[test]
fn clear_example() {
    let mut rle = RleVec::from(&[1, 1, 1, 1, 2, 2, 3][..]);
    rle.clear();
    assert!(rle.is_empty());
}

#[test]
fn last_examples() {
    let rle = RleVec::from(&[10, 10, 40, 40, 30][..]);
    assert_eq!(rle.last(), Some(&30));
    let rle = RleVec::<i32>::new();
    assert_eq!(rle.last(), None);

    let mut rle = RleVec::new();
    assert_eq!(rle.last_run(), None);
    rle.push(1);
    rle.push(1);
    rle.push(1);
    rle.push(1);
    assert_eq!(rle.last_run(), Some(Run { len: 4, value: &1 }));
    rle.push(2);
    rle.push(2);
    rle.push(3);
    assert_eq!(rle.last_run(), Some(Run { len: 1, value: &3 }));
}

#[test]
fn runs_len_and_starts_examples() {
    let mut rle = RleVec::new();
    assert_eq!(rle.runs_len(), 0);
    rle.push(1);
    rle.push(1);
    assert_eq!(rle.runs_len(), 1);
    rle.push(2);
    rle.push(3);
    assert_eq!(rle.runs_len(), 3);

    let mut rle = RleVec::new();
    rle.push(1);
    rle.push(1);
    rle.push(2);
    rle.push(2);
    rle.push(3);
    assert_eq!(rle.starts(), vec![0, 2, 4]);
}

#[test]
fn iterator_examples() {
    let mut rle = RleVec::new();
    rle.push(1);
    rle.push(1);
    rle.push(2);
    rle.push(3);
    let mut iterator = rle.iter();
    assert_eq!(iterator.next(), Some(&1));
    assert_eq!(iterator.next(), Some(&1));
    assert_eq!(iterator.next(), Some(&2));
    assert_eq!(iterator.next(), Some(&3));
    assert_eq!(iterator.next(), None);

    let mut iterator = rle.runs();
    assert_eq!(iterator.next(), Some(Run { len: 2, value: &1 }));
    assert_eq!(iterator.next(), Some(Run { len: 1, value: &2 }));
    assert_eq!(iterator.next(), Some(Run { len: 1, value: &3 }));
    assert_eq!(iterator.next(), None);
}

#[test]
fn push_examples() {
    let mut rle = RleVec::new();
    rle.push(1);
    assert_eq!(rle[0], 1);
    let mut rle = RleVec::new();
    rle.push_n(10, 2);
    assert_eq!(rle[9], 2);
}

#[test]
fn to_vec_example() {
    let slice = &[0, 0, 0, 1, 1, 99, 9];
    let rle = RleVec::from(&slice[..]);
    let vec = rle.to_vec();
    assert_eq!(vec.as_slice(), slice);
}

#[test]
fn set_example() {
    let mut rle = RleVec::from(&[1, 1, 1, 1, 2, 2, 3][..]);
    assert_eq!(rle[2], 1);
    assert_eq!(rle.len(), 7);
    assert_eq!(rle.runs_len(), 3);
    rle.set(2, 3);
    assert_eq!(rle[2], 3);
    assert_eq!(rle.len(), 7);
    assert_eq!(rle.runs_len(), 5);
}

#[test]
fn remove_example() {
    let mut rle = RleVec::from(&[1, 1, 1, 1, 2, 1, 1, 4, 4][..]);
    assert_eq!(rle.remove(4), 2);
    assert_eq!(rle.runs_len(), 2);
    assert_eq!(rle.to_vec(), vec![1, 1, 1, 1, 1, 1, 4, 4]);
}

#[test]
fn insert_example() {
    let mut rle = RleVec::from(&[1, 1, 1, 1, 2, 2, 3][..]);
    assert_eq!(rle[2], 1);
    assert_eq!(rle.runs_len(), 3);
    rle.insert(2, 3);
    assert_eq!(rle[2], 3);
    assert_eq!(rle.runs_len(), 5);
}

#[test]
fn iter_struct_example() {
    let rle = RleVec::from(&[1, 1, 1, 1, 2, 2, 3][..]);
    let mut iterator = rle.iter();
    assert_eq!(iterator.next(), Some(&1));
    assert_eq!(iterator.next(), Some(&1));
    assert_eq!(iterator.next(), Some(&1));
    assert_eq!(iterator.next(), Some(&1));
    assert_eq!(iterator.next(), Some(&2));
    assert_eq!(iterator.next(), Some(&2));
    assert_eq!(iterator.next(), Some(&3));
    assert_eq!(iterator.next(), None);
}

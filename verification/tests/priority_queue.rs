use netflow::index_min_pq::IndexMinPQ;
use netflow::index_min_pq::PqError;

#[test]
fn new_queue_is_empty() {
    let mut q = IndexMinPQ::get_index_from_size(4);
    assert!(q.is_empty());
    assert_eq!(q.size(), 0);
    for i in 0..6 {
        assert!(!q.contains(i));
    }
    assert_eq!(q.del_min(), Err(PqError::Empty));
}

#[test]
fn indices_leave_in_the_order_of_their_priorities() {
    let mut q = IndexMinPQ::get_index_from_size(8);
    let keys = [50u64, 20, 70, 10, 60, 30, 80, 40];
    for (i, k) in keys.iter().enumerate() {
        assert_eq!(q.insert(i, *k), Ok(()));
        assert!(q.contains(i));
    }
    assert_eq!(q.size(), 8);
    let mut out = vec![];
    while !q.is_empty() {
        out.push(q.del_min().unwrap());
    }
    assert_eq!(out, vec![3, 1, 5, 7, 0, 4, 2, 6]);
    assert_eq!(q.size(), 0);
}

#[test]
fn insert_is_refused_for_a_queued_index_and_beyond_the_capacity() {
    let mut q = IndexMinPQ::get_index_from_size(3);
    assert_eq!(q.insert(1, 5), Ok(()));
    assert_eq!(q.insert(1, 4), Err(PqError::AlreadyPresent));
    assert_eq!(q.insert(3, 4), Err(PqError::OutOfRange));
    assert_eq!(q.insert(usize::MAX, 4), Err(PqError::OutOfRange));
    assert_eq!(q.size(), 1);
    assert_eq!(q.del_min(), Ok(1));
    assert_eq!(q.insert(1, 4), Ok(()));
}

#[test]
fn change_is_refused_for_an_index_that_is_not_queued() {
    let mut q = IndexMinPQ::get_index_from_size(3);
    assert_eq!(q.change(0, 5), Err(PqError::NotPresent));
    assert_eq!(q.change(3, 5), Err(PqError::OutOfRange));
    assert_eq!(q.insert(0, 5), Ok(()));
    assert_eq!(q.change(0, 6), Ok(()));
    assert_eq!(q.del_min(), Ok(0));
    assert_eq!(q.change(0, 5), Err(PqError::NotPresent));
}

#[test]
fn change_moves_an_index_up_and_down() {
    let mut q = IndexMinPQ::get_index_from_size(5);
    for (i, k) in [10u64, 20, 30, 40, 50].iter().enumerate() {
        q.insert(i, *k).unwrap();
    }
    q.change(4, 5).unwrap();
    q.change(0, 45).unwrap();
    q.change(2, 30).unwrap();
    let mut out = vec![];
    while !q.is_empty() {
        out.push(q.del_min().unwrap());
    }
    assert_eq!(out, vec![4, 1, 2, 3, 0]);
}

#[test]
fn queue_of_capacity_zero_takes_nothing() {
    let mut q = IndexMinPQ::get_index_from_size(0);
    assert_eq!(q.insert(0, 1), Err(PqError::OutOfRange));
    assert!(q.is_empty());
}

#[test]
fn del_min_agrees_with_a_sorted_shadow() {
    let n = 40usize;
    let mut q = IndexMinPQ::get_index_from_size(n as i32);
    let mut shadow: Vec<Option<u64>> = vec![None; n];
    let mut state: u64 = 12345;
    for _ in 0..4000 {
        state = state.wrapping_mul(6364136223846793005).wrapping_add(1442695040888963407);
        let op = (state >> 33) % 3;
        let i = ((state >> 40) % n as u64) as usize;
        let key = (state >> 20) % 50;
        match op {
            0 => {
                let r = q.insert(i, key);
                if shadow[i].is_some() {
                    assert_eq!(r, Err(PqError::AlreadyPresent));
                } else {
                    assert_eq!(r, Ok(()));
                    shadow[i] = Some(key);
                }
            }
            1 => {
                let r = q.change(i, key);
                if shadow[i].is_some() {
                    assert_eq!(r, Ok(()));
                    shadow[i] = Some(key);
                } else {
                    assert_eq!(r, Err(PqError::NotPresent));
                }
            }
            _ => {
                let least = shadow.iter().flatten().min().copied();
                match q.del_min() {
                    Ok(m) => {
                        assert_eq!(shadow[m], least);
                        shadow[m] = None;
                    }
                    Err(e) => {
                        assert_eq!(e, PqError::Empty);
                        assert!(least.is_none());
                    }
                }
            }
        }
        let count = shadow.iter().flatten().count();
        assert_eq!(q.size() as usize, count);
        assert_eq!(q.is_empty(), count == 0);
        assert_eq!(q.contains(i), shadow[i].is_some());
    }
}

use kuina::stack_dequeue::StackDequeue;
use std::cell::Cell;
use std::rc::Rc;

fn collect<T: Clone, const N: usize>(deq: &StackDequeue<T, N>) -> Vec<T> {
    let mut out = Vec::new();
    let mut it = deq.iter();
    while let Some(x) = it.next() {
        out.push(x.clone());
    }
    out
}

#[test]
fn new_is_empty() {
    let deq = StackDequeue::<u32, 5>::new();
    assert_eq!(deq.len(), 0);
    assert_eq!(deq.front(), None);
    assert_eq!(deq.back(), None);
}

#[test]
fn len_counts_pushes() {
    let mut deq = StackDequeue::<_, 2>::new();
    assert_eq!(deq.len(), 0);
    deq.push_back(1);
    assert_eq!(deq.len(), 1);
}

#[test]
fn get_by_logical_index() {
    let mut deq = StackDequeue::<_, 4>::new();
    deq.push_back(3);
    deq.push_back(4);
    deq.push_back(5);
    deq.push_back(6);
    assert_eq!(deq.get(1), Some(&4));
    assert_eq!(deq.get(4), None);
}

#[test]
fn get_after_wrap() {
    let mut deq = StackDequeue::<_, 4>::new();
    deq.push_back(1);
    deq.push_back(2);
    deq.push_front(0);
    assert_eq!(deq.get(0), Some(&0));
    assert_eq!(deq.get(1), Some(&1));
    assert_eq!(deq.get(2), Some(&2));
    assert_eq!(deq.get(3), None);
}

#[test]
fn get_mut_changes_element() {
    let mut deq = StackDequeue::<_, 4>::new();
    deq.push_back(3);
    deq.push_back(4);
    deq.push_back(5);
    deq.push_back(6);
    assert_eq!(*deq.index(1), 4);
    if let Some(elem) = deq.get_mut(1) {
        *elem = 7;
    }
    assert_eq!(*deq.index(1), 7);
    assert!(deq.get_mut(4).is_none());
}

#[test]
fn front_of_two() {
    let mut deq = StackDequeue::<_, 2>::new();
    assert_eq!(deq.front(), None);
    deq.push_back(1);
    deq.push_back(2);
    assert_eq!(deq.front(), Some(&1));
}

#[test]
fn front_mut_changes_front() {
    let mut deq = StackDequeue::<_, 2>::new();
    assert_eq!(deq.front_mut(), None);
    deq.push_back(1);
    deq.push_back(2);
    match deq.front_mut() {
        Some(x) => *x = 9,
        None => (),
    }
    assert_eq!(deq.front(), Some(&9));
}

#[test]
fn back_of_two() {
    let mut deq = StackDequeue::<_, 2>::new();
    assert_eq!(deq.back(), None);
    deq.push_back(1);
    deq.push_back(2);
    assert_eq!(deq.back(), Some(&2));
}

#[test]
fn back_mut_changes_back() {
    let mut deq = StackDequeue::<_, 4>::new();
    assert_eq!(deq.back_mut(), None);
    deq.push_back(1);
    deq.push_back(2);
    match deq.back_mut() {
        Some(x) => *x = 9,
        None => (),
    }
    assert_eq!(deq.back(), Some(&9));
}

#[test]
fn push_back_appends() {
    let mut deq = StackDequeue::<_, 2>::new();
    deq.push_back(1);
    deq.push_back(3);
    assert_eq!(3, *deq.back().unwrap());
}

#[test]
fn push_back_mut_gives_stored_element() {
    let mut deq = StackDequeue::<_, 3>::new();
    deq.push_back(1);
    deq.push_back(2);
    let x = deq.push_back_mut(9);
    *x += 1;
    assert_eq!(deq.back(), Some(&10));
}

#[test]
fn pop_front_in_order() {
    let mut deq = StackDequeue::<_, 2>::new();
    deq.push_back(1);
    deq.push_back(2);
    assert_eq!(deq.pop_front(), Some(1));
    assert_eq!(deq.pop_front(), Some(2));
    assert_eq!(deq.pop_front(), None);
}

#[test]
fn push_front_prepends() {
    let mut deq = StackDequeue::<_, 2>::new();
    deq.push_front(1);
    deq.push_front(2);
    assert_eq!(deq.front(), Some(&2));
    assert_eq!(deq.back(), Some(&1));
}

#[test]
fn push_front_mut_gives_stored_element() {
    let mut deq = StackDequeue::<_, 3>::new();
    deq.push_back(1);
    deq.push_back(2);
    let x = deq.push_front_mut(8);
    *x -= 1;
    assert_eq!(deq.front(), Some(&7));
    assert_eq!(collect(&deq), vec![7, 1, 2]);
}

#[test]
fn pop_back_takes_last() {
    let mut deq = StackDequeue::<_, 2>::new();
    assert_eq!(deq.pop_back(), None);
    deq.push_back(1);
    deq.push_back(3);
    assert_eq!(deq.pop_back(), Some(3));
    assert_eq!(deq.pop_back(), Some(1));
    assert_eq!(deq.pop_back(), None);
}

#[test]
fn as_slices_before_and_after_wrap() {
    let mut deq = StackDequeue::<_, 5>::new();
    deq.push_back(0);
    deq.push_back(1);
    deq.push_back(2);
    let expected = [0, 1, 2];
    let (front, back) = deq.as_slices();
    assert_eq!(front, vec![&0, &1, &2]);
    assert!(back.is_empty());
    let joined: Vec<i32> = front.iter().chain(back.iter()).map(|x| **x).collect();
    assert_eq!(joined, expected.to_vec());
    deq.push_front(10);
    deq.push_front(9);
    let expected = [9, 10, 0, 1, 2];
    let (front, back) = deq.as_slices();
    assert_eq!(front, vec![&9, &10]);
    assert_eq!(back, vec![&0, &1, &2]);
    let joined: Vec<i32> = front.iter().chain(back.iter()).map(|x| **x).collect();
    assert_eq!(joined, expected.to_vec());
}

#[test]
fn as_slices_run_lengths() {
    let mut deq = StackDequeue::<u8, 3>::new();
    for round in 0..7u8 {
        deq.push_back(round);
        if deq.len() == 3 {
            deq.pop_front();
        }
        let (a, b) = deq.as_slices();
        assert_eq!(a.len() + b.len(), deq.len());
        let joined: Vec<u8> = a.iter().chain(b.iter()).map(|x| **x).collect();
        assert_eq!(joined, collect(&deq));
    }
}

#[test]
fn index_mut_through_runs() {
    let mut deq = StackDequeue::<_, 4>::new();
    deq.push_back(0);
    deq.push_back(1);
    deq.push_front(10);
    deq.push_front(9);
    *deq.index_mut(0) = 42;
    *deq.index_mut(2) = 24;
    assert!(deq.eq_slice(&[42, 10, 24, 1]));
}

#[test]
fn iter_front_to_back() {
    let mut deq = StackDequeue::<_, 3>::new();
    deq.push_back(5);
    deq.push_back(3);
    deq.push_back(4);
    let b: &[_] = &[&5, &3, &4];
    let mut c: Vec<&i32> = Vec::new();
    let mut it = deq.iter();
    assert_eq!(it.len(), 3);
    while let Some(x) = it.next() {
        c.push(x);
    }
    assert_eq!(&c[..], b);
}

#[test]
fn iter_both_ends() {
    let mut deq = StackDequeue::<_, 4>::new();
    deq.push_back(1);
    deq.push_back(2);
    deq.push_front(0);
    let mut it = deq.iter();
    assert_eq!(it.next_back(), Some(&2));
    assert_eq!(it.next(), Some(&0));
    assert_eq!(it.len(), 1);
    assert_eq!(it.next_back(), Some(&1));
    assert_eq!(it.next(), None);
    assert_eq!(it.next_back(), None);
}

#[test]
fn into_iter_takes_elements() {
    let mut deq = StackDequeue::<_, 4>::new();
    deq.push_back(2);
    deq.push_back(3);
    deq.push_front(1);
    let mut it = deq.into_iter();
    assert_eq!(it.len(), 3);
    assert_eq!(it.next(), Some(1));
    assert_eq!(it.next_back(), Some(3));
    assert_eq!(it.next(), Some(2));
    assert_eq!(it.next(), None);
    assert_eq!(it.next_back(), None);
}

#[test]
fn from_array_is_full() {
    let deq1 = StackDequeue::from_array([1, 2, 3, 4]);
    assert_eq!(deq1.len(), 4);
    assert!(deq1.eq_slice(&[1, 2, 3, 4]));
    assert_eq!(collect(&deq1), vec![1, 2, 3, 4]);
}

#[test]
fn front_and_back_pushes_give_logical_order() {
    let mut deq = StackDequeue::<_, 5>::new();
    deq.push_back(0);
    deq.push_back(1);
    deq.push_back(2);
    deq.push_front(10);
    deq.push_front(9);
    assert_eq!(collect(&deq), vec![9, 10, 0, 1, 2]);
    assert_eq!(deq.len(), 5);
}

#[test]
fn push_then_pop_restores() {
    let mut deq = StackDequeue::<_, 3>::new();
    deq.push_back(1);
    deq.push_front(0);
    deq.push_back(7);
    assert_eq!(deq.pop_back(), Some(7));
    assert_eq!(collect(&deq), vec![0, 1]);
    deq.push_front(8);
    assert_eq!(deq.pop_front(), Some(8));
    assert_eq!(collect(&deq), vec![0, 1]);
    let x = deq.pop_front().unwrap();
    deq.push_front(x);
    assert_eq!(collect(&deq), vec![0, 1]);
}

#[test]
fn pop_on_empty_is_absent() {
    let mut zero = StackDequeue::<u8, 0>::new();
    assert_eq!(zero.pop_front(), None);
    assert_eq!(zero.pop_back(), None);
    let mut one = StackDequeue::<u8, 1>::new();
    assert_eq!(one.pop_front(), None);
    assert_eq!(one.pop_back(), None);
    one.push_back(4);
    assert_eq!(one.pop_back(), Some(4));
    assert_eq!(one.pop_front(), None);
    assert_eq!(one.len(), 0);
}

#[test]
fn size_tracks_pushes_and_pops() {
    let mut deq = StackDequeue::<u32, 4>::new();
    deq.push_back(1);
    deq.push_front(2);
    deq.push_back(3);
    deq.pop_front();
    assert_eq!(deq.len(), 2);
    assert_eq!(deq.iter().len(), 2);
    deq.pop_back();
    deq.pop_back();
    deq.pop_back();
    assert_eq!(deq.len(), 0);
    assert_eq!(collect(&deq).len(), 0);
}

#[test]
fn wrapped_deque_equals_plain_sequence() {
    let mut deq = StackDequeue::<_, 5>::new();
    deq.push_front(2);
    deq.push_front(1);
    deq.push_front(0);
    assert!(deq.eq_slice(&[0, 1, 2]));
    assert!(!deq.eq_slice(&[0, 1]));
    assert!(!deq.eq_slice(&[0, 1, 3]));
    let (a, b) = deq.as_slices();
    assert_eq!(a.len(), 3);
    assert!(b.is_empty());
}

#[test]
fn wrapped_across_end_equals_plain_sequence() {
    let mut deq = StackDequeue::<_, 3>::new();
    deq.push_back(9);
    deq.push_back(0);
    deq.pop_front();
    deq.push_back(1);
    deq.push_back(2);
    let (a, b) = deq.as_slices();
    assert_eq!(a, vec![&0, &1]);
    assert_eq!(b, vec![&2]);
    assert!(deq.eq_slice(&[0, 1, 2]));
}

struct Counted {
    drops: Rc<Cell<u32>>,
}

impl Drop for Counted {
    fn drop(&mut self) {
        self.drops.set(self.drops.get() + 1);
    }
}

#[test]
fn each_element_released_once() {
    let drops = Rc::new(Cell::new(0));
    {
        let mut deq = StackDequeue::<Counted, 4>::new();
        for _ in 0..3 {
            deq.push_back(Counted { drops: drops.clone() });
        }
        deq.push_front(Counted { drops: drops.clone() });
        let popped = deq.pop_back();
        assert_eq!(drops.get(), 0);
        drop(popped);
        assert_eq!(drops.get(), 1);
    }
    assert_eq!(drops.get(), 4);
    let drops = Rc::new(Cell::new(0));
    {
        let deq = StackDequeue::from_array([
            Counted { drops: drops.clone() },
            Counted { drops: drops.clone() },
            Counted { drops: drops.clone() },
        ]);
        let mut it = deq.into_iter();
        drop(it.next());
        assert_eq!(drops.get(), 1);
    }
    assert_eq!(drops.get(), 3);
}

#[test]
fn iter_mut_changes_each_element() {
    let mut deq = StackDequeue::<_, 3>::new();
    deq.push_back(5);
    deq.push_back(3);
    deq.push_back(4);
    {
        let mut it = deq.iter_mut();
        assert_eq!(it.len(), 3);
        while let Some(num) = it.next() {
            *num = *num - 2;
        }
        assert_eq!(it.len(), 0);
    }
    assert_eq!(collect(&deq), vec![3, 1, 2]);
}

#[test]
fn iter_mut_from_back_after_wrap() {
    let mut deq = StackDequeue::<_, 3>::new();
    deq.push_back(2);
    deq.push_front(1);
    deq.push_front(0);
    {
        let mut it = deq.iter_mut();
        if let Some(x) = it.next_back() {
            *x = 20;
        }
        if let Some(x) = it.next() {
            *x = 10;
        }
    }
    assert!(deq.eq_slice(&[10, 1, 20]));
}

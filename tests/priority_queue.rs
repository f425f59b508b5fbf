use annoy_rs::PriorityQueue;

fn test_qp_inner(s: &mut [u32]) {
    let mut pq = PriorityQueue::with_capacity(s.len(), false);
    for &i in s.iter() {
        pq.push(i, i);
    }
    assert_eq!(pq.len(), s.len());

    let mut sorted = Vec::with_capacity(s.len());
    while pq.len() > 0 {
        if let Some((k, _p)) = pq.pop() {
            sorted.push(k);
        }
    }

    s.sort_by(|a, b| b.partial_cmp(a).unwrap());
    assert_eq!(s, sorted.as_slice());
}

#[test]
fn test_pq_1() {
    test_qp_inner(vec![5, 7, 9, 2, 4, 1].as_mut_slice());
}

#[test]
fn test_pq_2() {
    test_qp_inner(vec![1, 2, 3, 4, 5, 6, 7, 8, 9].as_mut_slice());
}

#[test]
fn test_pq_3() {
    test_qp_inner(vec![9, 8, 7, 6, 5, 4, 3, 2, 1].as_mut_slice());
}

#[test]
fn min_first_queue_pops_ascending() {
    let mut pq = PriorityQueue::with_capacity(4, true);
    for &p in [30u32, 10, 20, 10, 40].iter() {
        pq.push(p + 1, p);
    }
    let mut out = Vec::new();
    while let Some((k, p)) = pq.pop() {
        assert_eq!(k, p + 1);
        out.push(p);
    }
    assert_eq!(out, vec![10, 10, 20, 30, 40]);
}

#[test]
fn pop_on_empty_queue_is_none() {
    let mut pq: PriorityQueue<u32> = PriorityQueue::with_capacity(0, false);
    assert_eq!(pq.len(), 0);
    assert!(pq.pop().is_none());
    pq.push(7, 3);
    assert_eq!(pq.pop(), Some((7, 3)));
    assert!(pq.pop().is_none());
}

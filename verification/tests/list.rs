use obcore::{List, Pool, NIL};

#[test]
fn test_new() {
    let list: List<i32> = List::new();
    assert!(list.is_empty());
    assert_eq!(list.len(), 0);
}

#[test]
fn test_default() {
    let list: List<i32> = List::default();
    assert!(list.is_empty());
    assert_eq!(list.len(), 0);
}

#[test]
fn test_push_back() {
    let mut list = List::new();
    let mut pool = Pool::new();
    list.push_back(1, &mut pool);
    list.push_back(2, &mut pool);
    list.push_back(3, &mut pool);
    assert_eq!(list.len(), 3);
    assert_eq!(list.iter(&pool).last().unwrap(), &3);
}

#[test]
fn test_pop_front() {
    let mut list = List::new();
    let mut pool = Pool::new();
    list.push_back(1, &mut pool);
    list.push_back(2, &mut pool);
    list.push_back(3, &mut pool);

    let node1 = list.pop_front(&mut pool).unwrap();
    assert_eq!(*pool.get(node1), 1);
    let _ = pool.dealloc(node1);

    let node2 = list.pop_front(&mut pool).unwrap();
    assert_eq!(*pool.get(node2), 2);
    let _ = pool.dealloc(node2);

    let node3 = list.pop_front(&mut pool).unwrap();
    assert_eq!(*pool.get(node3), 3);
    let _ = pool.dealloc(node3);

    assert_eq!(list.pop_front(&mut pool), None);
    assert!(list.is_empty());
    assert_eq!(list.len(), 0);
}

#[test]
fn test_into_iter() {
    let mut list = List::new();
    let mut pool = Pool::new();
    list.push_back(1, &mut pool);
    list.push_back(2, &mut pool);
    list.push_back(3, &mut pool);
    let vec: Vec<i32> = list.into_iter(&mut pool).collect();
    assert_eq!(vec, vec![1, 2, 3]);
}

#[test]
fn test_drop() {
    let mut list = List::new();
    let mut pool = Pool::new();
    for i in 0..100 {
        list.push_back(i, &mut pool);
    }
}

#[test]
fn list_test_iter() {
    let mut list = List::new();
    let mut pool = Pool::new();
    list.push_back(1, &mut pool);
    list.push_back(2, &mut pool);
    list.push_back(3, &mut pool);
    let vec: Vec<&i32> = list.iter(&pool).collect();
    assert_eq!(vec, vec![&1, &2, &3]);
    assert_eq!(list.len(), 3);
}

#[test]
fn list_test_iter_mut() {
    let mut list = List::new();
    let mut pool = Pool::new();
    list.push_back(1, &mut pool);
    list.push_back(2, &mut pool);
    list.push_back(3, &mut pool);
    for handle in list.iter_mut(&pool) {
        *pool.data_mut(handle) *= 2;
    }
    let vec: Vec<&i32> = list.iter(&pool).collect();
    assert_eq!(vec, vec![&2, &4, &6]);
    assert_eq!(list.len(), 3);
}

#[test]
fn test_remove_null_pointer() {
    let mut list = List::new();
    let mut pool = Pool::new();
    list.push_back(1, &mut pool);
    let result = list.remove(NIL, &mut pool);
    assert_eq!(result, None);
    assert_eq!(list.len(), 1);
}

#[test]
fn test_remove_head() {
    let mut list = List::new();
    let mut pool = Pool::new();
    let node1 = list.push_back(1, &mut pool);
    list.push_back(2, &mut pool);
    list.push_back(3, &mut pool);
    let removed = list.remove(node1, &mut pool);
    assert_eq!(removed, Some(1));
    assert_eq!(list.len(), 2);
    let vec: Vec<&i32> = list.iter(&pool).collect();
    assert_eq!(vec, vec![&2, &3]);
}

#[test]
fn test_remove_tail() {
    let mut list = List::new();
    let mut pool = Pool::new();
    list.push_back(1, &mut pool);
    list.push_back(2, &mut pool);
    let node3 = list.push_back(3, &mut pool);
    let removed = list.remove(node3, &mut pool);
    assert_eq!(removed, Some(3));
    assert_eq!(list.len(), 2);
    let vec: Vec<&i32> = list.iter(&pool).collect();
    assert_eq!(vec, vec![&1, &2]);
}

#[test]
fn test_remove_middle() {
    let mut list = List::new();
    let mut pool = Pool::new();
    list.push_back(1, &mut pool);
    let node2 = list.push_back(2, &mut pool);
    list.push_back(3, &mut pool);
    let removed = list.remove(node2, &mut pool);
    assert_eq!(removed, Some(2));
    assert_eq!(list.len(), 2);
    let vec: Vec<&i32> = list.iter(&pool).collect();
    assert_eq!(vec, vec![&1, &3]);
}

#[test]
fn test_remove_only_node() {
    let mut list = List::new();
    let mut pool = Pool::new();
    let node1 = list.push_back(1, &mut pool);
    let removed = list.remove(node1, &mut pool);
    assert_eq!(removed, Some(1));
    assert_eq!(list.len(), 0);
    assert!(list.is_empty());
    let vec: Vec<&i32> = list.iter(&pool).collect();
    assert_eq!(vec, Vec::<&i32>::new());
}

#[test]
fn test_remove_multiple_nodes() {
    let mut list = List::new();
    let mut pool = Pool::new();
    let node1 = list.push_back(1, &mut pool);
    let node2 = list.push_back(2, &mut pool);
    let node3 = list.push_back(3, &mut pool);
    let node4 = list.push_back(4, &mut pool);
    let node5 = list.push_back(5, &mut pool);

    let removed = list.remove(node3, &mut pool);
    assert_eq!(removed, Some(3));
    assert_eq!(list.len(), 4);
    let vec: Vec<&i32> = list.iter(&pool).collect();
    assert_eq!(vec, vec![&1, &2, &4, &5]);

    let removed = list.remove(node5, &mut pool);
    assert_eq!(removed, Some(5));
    assert_eq!(list.len(), 3);
    let vec: Vec<&i32> = list.iter(&pool).collect();
    assert_eq!(vec, vec![&1, &2, &4]);

    let removed = list.remove(node1, &mut pool);
    assert_eq!(removed, Some(1));
    assert_eq!(list.len(), 2);
    let vec: Vec<&i32> = list.iter(&pool).collect();
    assert_eq!(vec, vec![&2, &4]);

    let removed = list.remove(node2, &mut pool);
    assert_eq!(removed, Some(2));
    assert_eq!(list.len(), 1);

    let removed = list.remove(node4, &mut pool);
    assert_eq!(removed, Some(4));
    assert_eq!(list.len(), 0);
    assert!(list.is_empty());
}

#[test]
fn test_pool_reuse() {
    let mut pool = Pool::new();
    let mut list = List::new();

    let node1 = list.push_back(1, &mut pool);
    let node2 = list.push_back(2, &mut pool);

    list.remove(node1, &mut pool);
    list.remove(node2, &mut pool);
    assert!(pool.has_free());

    // Pool reuses freed nodes for new allocations
    let _node3 = list.push_back(3, &mut pool);
    let _node4 = list.push_back(4, &mut pool);
    assert!(!pool.has_free());

    assert_eq!(list.len(), 2);
    let vec: Vec<&i32> = list.iter(&pool).collect();
    assert_eq!(vec, vec![&3, &4]);
}

#[test]
fn pool_hands_out_the_slot_freed_last() {
    let mut pool: Pool<u8> = Pool::new();
    let a = pool.allocate(1);
    let b = pool.allocate(2);
    let c = pool.allocate(3);
    assert_eq!((a, b, c), (0, 1, 2));
    assert_eq!(pool.dealloc(a), 1);
    assert_eq!(pool.dealloc(c), 3);
    assert_eq!(pool.allocate(4), c);
    assert_eq!(pool.allocate(5), a);
    assert_eq!(pool.allocate(6), 3);
    assert_eq!(*pool.get(b), 2);
    assert_eq!(*pool.get(c), 4);
}

#[test]
fn two_lists_share_one_pool() {
    let mut pool = Pool::new();
    let mut left = List::new();
    let mut right = List::new();
    let l1 = left.push_back(10, &mut pool);
    let r1 = right.push_back(20, &mut pool);
    left.push_back(11, &mut pool);
    right.push_back(21, &mut pool);
    assert_eq!(left.remove(l1, &mut pool), Some(10));
    right.push_back(22, &mut pool);
    assert_eq!(left.iter(&pool).collect::<Vec<&i32>>(), vec![&11]);
    assert_eq!(right.iter(&pool).collect::<Vec<&i32>>(), vec![&20, &21, &22]);
    assert_eq!(right.front(&pool), r1);
    assert_eq!(right.next(r1, &pool), pool.next_of(r1));
    assert_eq!(pool.prev_of(r1), NIL);
    assert_eq!(right.remove(NIL, &mut pool), None);
    let mut empty: List<i32> = List::new();
    assert_eq!(empty.remove(r1, &mut pool), None);
    assert_eq!(empty.pop_front(&mut pool), None);
}
